//! Pseudo-legal move generation, the move descriptor, and the check
//! detector.
//!
//! A pseudo-legal move obeys a piece's movement geometry and the
//! occupancy rules but does not itself guarantee the mover's king stays
//! safe. Every generator appends `(destination index, kind)` pairs to a
//! caller-supplied vector, and each is proved sound and complete
//! against the one spec function [`piece_move_kind`]: a destination is
//! emitted if and only if the spec assigns it a kind, and the emitted
//! kind is that kind.

use vstd::prelude::*;

use crate::coordinate::Coordinate;
use crate::errors::BoardError;
use crate::pieces::{Colour, Piece, PieceType};

verus! {

/// A move descriptor in UCI coordinate notation: origin, destination,
/// and an optional promotion piece (for example "e7e8q").
#[derive(Debug, PartialEq, Clone, Copy)]
pub struct Move {
    pub from: Coordinate,
    pub destination: Coordinate,
    pub promotion: Option<PieceType>,
}

/// The kind of a generated move, tagged with what the applicator must
/// know: a double push carries the new en-passant target square, an
/// en-passant capture the square of the captured pawn. The castling
/// kinds are declared but never generated.
#[derive(Debug, PartialEq, Eq, Structural, Clone, Copy)]
pub enum MoveType {
    Regular,
    DoublePush(usize),
    Capture,
    CastleKingSide,
    CastleQueenSide,
    EnPassant(usize),
    PromotionPush,
    PromotionCapture,
}

/// The promotion piece a trailing move-text letter denotes; only the
/// lowercase letters q, r, b and n are promotion pieces.
pub open spec fn promo_piece(c: char) -> Option<PieceType> {
    if c == 'q' {
        Some(PieceType::Queen)
    } else if c == 'r' {
        Some(PieceType::Rook)
    } else if c == 'b' {
        Some(PieceType::Bishop)
    } else if c == 'n' {
        Some(PieceType::Knight)
    } else {
        None
    }
}

/// Whether a failed square token is reported as an integer-parse
/// failure (a two-character token whose second character is no digit)
/// rather than a coordinate error.
pub open spec fn coord_err_is_parse_int(s: Seq<char>) -> bool {
    s.len() == 2 && !crate::coordinate::is_ascii_digit(s[1])
}

impl Move {
    /// What a UCI move token denotes: two squares, and for
    /// five-character tokens a promotion piece.
    pub open spec fn spec_of_str(s: Seq<char>) -> Option<Move> {
        if s.len() == 4 {
            match (Coordinate::spec_of_str(s.subrange(0, 2)), Coordinate::spec_of_str(
                s.subrange(2, 4),
            )) {
                (Some(f), Some(d)) => Some(Move { from: f, destination: d, promotion: None }),
                _ => None,
            }
        } else if s.len() == 5 {
            match (Coordinate::spec_of_str(s.subrange(0, 2)), Coordinate::spec_of_str(
                s.subrange(2, 4),
            ), promo_piece(s[4])) {
                (Some(f), Some(d), Some(p)) => Some(
                    Move { from: f, destination: d, promotion: Some(p) },
                ),
                _ => None,
            }
        } else {
            None
        }
    }

    /// Parse a UCI move token of four characters, or five with a
    /// trailing lowercase promotion letter.
    pub fn from_str(s: &str) -> (r: Result<Move, BoardError>)
        ensures
            r is Ok <==> Self::spec_of_str(s@) is Some,
            r is Ok ==> Some(r->Ok_0) == Self::spec_of_str(s@),
            r is Err ==> (if s@.len() != 4 && s@.len() != 5 {
                r->Err_0 == BoardError::MoveError
            } else if Coordinate::spec_of_str(s@.subrange(0, 2)) is None {
                if coord_err_is_parse_int(s@.subrange(0, 2)) {
                    r->Err_0 == BoardError::ParseInt
                } else {
                    r->Err_0 is CoordinateError
                }
            } else if Coordinate::spec_of_str(s@.subrange(2, 4)) is None {
                if coord_err_is_parse_int(s@.subrange(2, 4)) {
                    r->Err_0 == BoardError::ParseInt
                } else {
                    r->Err_0 is CoordinateError
                }
            } else {
                r->Err_0 == BoardError::PieceError
            }),
    {
        let n = s.unicode_len();
        if n != 4 && n != 5 {
            return Err(BoardError::MoveError);
        }
        let from = match Coordinate::from_str(s.substring_char(0, 2)) {
            Ok(c) => c,
            Err(e) => return Err(e),
        };
        let destination = match Coordinate::from_str(s.substring_char(2, 4)) {
            Ok(c) => c,
            Err(e) => return Err(e),
        };
        if n == 4 {
            return Ok(Move { from, destination, promotion: None });
        }
        let promotion = match s.get_char(4) {
            'q' => PieceType::Queen,
            'r' => PieceType::Rook,
            'b' => PieceType::Bishop,
            'n' => PieceType::Knight,
            _ => return Err(BoardError::PieceError),
        };
        Ok(Move { from, destination, promotion: Some(promotion) })
    }
}

// ------------------------------------------------------------------
// The board geometry, in file/rank space.
// ------------------------------------------------------------------

/// A square list is a whole board: one slot per square.
pub open spec fn sq_wf(sq: Seq<Option<Piece>>) -> bool {
    sq.len() == 64
}

/// The file (column) of a flat square index.
pub open spec fn file_of(i: int) -> int {
    i % 8
}

/// The rank (row) of a flat square index.
pub open spec fn rank_of(i: int) -> int {
    i / 8
}

/// The square at file `f`, rank `r`.
pub open spec fn square_at(f: int, r: int) -> int {
    f + 8 * r
}

/// Splitting a square index into file and rank and recombining them is
/// the identity, and a square built from an on-board file and rank is
/// on the board.
proof fn lemma_square_parts(f: int, r: int)
    requires
        0 <= f < 8,
        0 <= r < 8,
    ensures
        file_of(square_at(f, r)) == f,
        rank_of(square_at(f, r)) == r,
        0 <= square_at(f, r) < 64,
{
}

/// The occupancy rule shared by every non-pawn move: an empty target
/// is a regular move, an enemy-held target a capture, an own-held
/// target no move at all.
pub open spec fn occupancy_kind(sq: Seq<Option<Piece>>, colour: Colour, to: int) -> Option<
    MoveType,
> {
    if sq[to] is None {
        Some(MoveType::Regular)
    } else if sq[to]->0.colour != colour {
        Some(MoveType::Capture)
    } else {
        None
    }
}

/// The knight's jump shape: one file and two ranks, or two files and
/// one rank.
pub open spec fn knight_shape(from: int, to: int) -> bool {
    let df = vstd::math::abs(file_of(to) - file_of(from));
    let dr = vstd::math::abs(rank_of(to) - rank_of(from));
    (df == 1 && dr == 2) || (df == 2 && dr == 1)
}

/// The king's step shape: at most one file and one rank, and not
/// standing still.
pub open spec fn king_shape(from: int, to: int) -> bool {
    let df = vstd::math::abs(file_of(to) - file_of(from));
    let dr = vstd::math::abs(rank_of(to) - rank_of(from));
    df <= 1 && dr <= 1 && (df != 0 || dr != 0)
}

/// A unit direction in file/rank space.
pub open spec fn dir_ok(df: int, dr: int) -> bool {
    -1 <= df <= 1 && -1 <= dr <= 1 && !(df == 0 && dr == 0)
}

/// How many steps fit on the board from (f, r) in direction (df, dr):
/// the bound on the ray recursion.
pub open spec fn ray_measure(f: int, r: int, df: int, dr: int) -> int {
    let a = if df > 0 {
        7 - f
    } else if df < 0 {
        f
    } else {
        8
    };
    let b = if dr > 0 {
        7 - r
    } else if dr < 0 {
        r
    } else {
        8
    };
    if a <= b {
        a
    } else {
        b
    }
}

/// Ray casting: square `to` is reached from (f, r) by stepping one
/// square at a time in direction (df, dr), never leaving the board,
/// with every square strictly before `to` empty. `to` itself may be
/// occupied: it is the first square the ray cannot pass.
pub open spec fn ray_reaches(
    sq: Seq<Option<Piece>>,
    f: int,
    r: int,
    df: int,
    dr: int,
    to: int,
) -> bool
    decreases ray_measure(f, r, df, dr),
{
    dir_ok(df, dr) && 0 <= f + df < 8 && 0 <= r + dr < 8 && {
        let n = square_at(f + df, r + dr);
        to == n || (sq[n] is None && ray_reaches(sq, f + df, r + dr, df, dr, to))
    }
}

/// Any square a ray reaches is on the board.
proof fn lemma_ray_target_on_board(
    sq: Seq<Option<Piece>>,
    f: int,
    r: int,
    df: int,
    dr: int,
    to: int,
)
    requires
        ray_reaches(sq, f, r, df, dr, to),
    ensures
        0 <= to < 64,
    decreases ray_measure(f, r, df, dr),
{
    if to != square_at(f + df, r + dr) {
        lemma_ray_target_on_board(sq, f + df, r + dr, df, dr, to);
    }
}

/// Reachability along one of the four orthogonal rays: the rook's and
/// half of the queen's geometry.
pub open spec fn straight_reaches(sq: Seq<Option<Piece>>, from: int, to: int) -> bool {
    let f = file_of(from);
    let r = rank_of(from);
    ray_reaches(sq, f, r, 1, 0, to) || ray_reaches(sq, f, r, -1, 0, to) || ray_reaches(
        sq,
        f,
        r,
        0,
        1,
        to,
    ) || ray_reaches(sq, f, r, 0, -1, to)
}

/// Reachability along one of the four diagonal rays: the bishop's and
/// the other half of the queen's geometry.
pub open spec fn diagonal_reaches(sq: Seq<Option<Piece>>, from: int, to: int) -> bool {
    let f = file_of(from);
    let r = rank_of(from);
    ray_reaches(sq, f, r, 1, 1, to) || ray_reaches(sq, f, r, 1, -1, to) || ray_reaches(
        sq,
        f,
        r,
        -1,
        1,
        to,
    ) || ray_reaches(sq, f, r, -1, -1, to)
}

// ------------------------------------------------------------------
// The move kind each piece assigns to each destination.
// ------------------------------------------------------------------

/// The knight's pseudo-legal kind for a destination, or None.
pub open spec fn knight_move_kind(
    sq: Seq<Option<Piece>>,
    from: int,
    colour: Colour,
    to: int,
) -> Option<MoveType> {
    if 0 <= to < 64 && knight_shape(from, to) {
        occupancy_kind(sq, colour, to)
    } else {
        None
    }
}

/// The king's pseudo-legal kind for a destination, or None. No
/// castling move is produced.
pub open spec fn king_move_kind(sq: Seq<Option<Piece>>, from: int, colour: Colour, to: int) -> Option<
    MoveType,
> {
    if 0 <= to < 64 && king_shape(from, to) {
        occupancy_kind(sq, colour, to)
    } else {
        None
    }
}

/// The rook's pseudo-legal kind for a destination, or None.
pub open spec fn rook_move_kind(sq: Seq<Option<Piece>>, from: int, colour: Colour, to: int) -> Option<
    MoveType,
> {
    if 0 <= to < 64 && straight_reaches(sq, from, to) {
        occupancy_kind(sq, colour, to)
    } else {
        None
    }
}

/// The bishop's pseudo-legal kind for a destination, or None.
pub open spec fn bishop_move_kind(
    sq: Seq<Option<Piece>>,
    from: int,
    colour: Colour,
    to: int,
) -> Option<MoveType> {
    if 0 <= to < 64 && diagonal_reaches(sq, from, to) {
        occupancy_kind(sq, colour, to)
    } else {
        None
    }
}

/// The queen's pseudo-legal kind for a destination, or None: the union
/// of the rook's and the bishop's geometry.
pub open spec fn queen_move_kind(sq: Seq<Option<Piece>>, from: int, colour: Colour, to: int) -> Option<
    MoveType,
> {
    if 0 <= to < 64 && (diagonal_reaches(sq, from, to) || straight_reaches(sq, from, to)) {
        occupancy_kind(sq, colour, to)
    } else {
        None
    }
}

/// A white pawn's pseudo-legal kind for a destination, or None: a
/// one-square push onto an empty square (a promotion push onto the far
/// rank), a two-square push from the home rank over two empty squares,
/// a diagonal capture of a black piece (a promotion capture on the far
/// rank), or an en-passant capture onto the active en-passant target.
pub open spec fn white_pawn_move_kind(
    sq: Seq<Option<Piece>>,
    from: int,
    ep: Option<int>,
    to: int,
) -> Option<MoveType> {
    if to == from + 8 && to < 64 && sq[to] is None {
        if rank_of(to) == 7 {
            Some(MoveType::PromotionPush)
        } else {
            Some(MoveType::Regular)
        }
    } else if to == from + 16 && rank_of(from) == 1 && sq[from + 8] is None && sq[to] is None {
        Some(MoveType::DoublePush((from + 8) as usize))
    } else if ((to == from + 7 && file_of(from) != 0) || (to == from + 9 && file_of(from) != 7))
        && to < 64 {
        if sq[to] is Some {
            if sq[to]->0.colour == Colour::Black {
                if rank_of(to) == 7 {
                    Some(MoveType::PromotionCapture)
                } else {
                    Some(MoveType::Capture)
                }
            } else {
                None
            }
        } else if ep == Some(to) {
            Some(MoveType::EnPassant((to - 8) as usize))
        } else {
            None
        }
    } else {
        None
    }
}

/// A black pawn's pseudo-legal kind for a destination, or None: the
/// mirror image of the white pawn's rules.
pub open spec fn black_pawn_move_kind(
    sq: Seq<Option<Piece>>,
    from: int,
    ep: Option<int>,
    to: int,
) -> Option<MoveType> {
    if to == from - 8 && to >= 0 && sq[to] is None {
        if rank_of(to) == 0 {
            Some(MoveType::PromotionPush)
        } else {
            Some(MoveType::Regular)
        }
    } else if to == from - 16 && rank_of(from) == 6 && sq[from - 8] is None && sq[to] is None {
        Some(MoveType::DoublePush((from - 8) as usize))
    } else if ((to == from - 7 && file_of(from) != 7) || (to == from - 9 && file_of(from) != 0))
        && to >= 0 {
        if sq[to] is Some {
            if sq[to]->0.colour == Colour::White {
                if rank_of(to) == 0 {
                    Some(MoveType::PromotionCapture)
                } else {
                    Some(MoveType::Capture)
                }
            } else {
                None
            }
        } else if ep == Some(to) {
            Some(MoveType::EnPassant((to + 8) as usize))
        } else {
            None
        }
    } else {
        None
    }
}

/// A pawn's pseudo-legal kind for a destination, by colour.
pub open spec fn pawn_move_kind(
    sq: Seq<Option<Piece>>,
    from: int,
    colour: Colour,
    ep: Option<int>,
    to: int,
) -> Option<MoveType> {
    match colour {
        Colour::White => white_pawn_move_kind(sq, from, ep, to),
        Colour::Black => black_pawn_move_kind(sq, from, ep, to),
    }
}

/// The pseudo-legal kind the piece standing on `from` assigns to a
/// destination, or None when the destination is unreachable. This is
/// the one definition every generator is proved against.
pub open spec fn piece_move_kind(
    sq: Seq<Option<Piece>>,
    from: int,
    ep: Option<int>,
    to: int,
) -> Option<MoveType> {
    let p = sq[from]->0;
    match p.piece_type {
        PieceType::Pawn => pawn_move_kind(sq, from, p.colour, ep, to),
        PieceType::Knight => knight_move_kind(sq, from, p.colour, to),
        PieceType::Bishop => bishop_move_kind(sq, from, p.colour, to),
        PieceType::Rook => rook_move_kind(sq, from, p.colour, to),
        PieceType::Queen => queen_move_kind(sq, from, p.colour, to),
        PieceType::King => king_move_kind(sq, from, p.colour, to),
    }
}

/// The en-passant target as a flat index, when one is set.
pub open spec fn ep_index(ep: Option<Coordinate>) -> Option<int> {
    match ep {
        None => None,
        Some(c) => Some(c.index_spec()),
    }
}

// ------------------------------------------------------------------
// Generators for the jumping pieces: knight and king.
// ------------------------------------------------------------------

/// Probe a single jump offset from `from`: when the offset lands on
/// the board, append the move the occupancy rule assigns, if any.
fn try_jump(
    legal_moves: &mut Vec<(usize, MoveType)>,
    squares: &Vec<Option<Piece>>,
    from: usize,
    df: i32,
    dr: i32,
    colour: Colour,
)
    requires
        sq_wf(squares@),
        from < 64,
        -2 <= df <= 2,
        -2 <= dr <= 2,
    ensures
        ({
            let f = file_of(from as int) + df;
            let r = rank_of(from as int) + dr;
            if 0 <= f < 8 && 0 <= r < 8 {
                match occupancy_kind(squares@, colour, square_at(f, r)) {
                    Some(k) => final(legal_moves)@ == old(legal_moves)@.push(
                        (square_at(f, r) as usize, k),
                    ),
                    None => final(legal_moves)@ == old(legal_moves)@,
                }
            } else {
                final(legal_moves)@ == old(legal_moves)@
            }
        }),
{
    let f = (from % 8) as i32 + df;
    let r = (from / 8) as i32 + dr;
    if 0 <= f && f < 8 && 0 <= r && r < 8 {
        proof {
            lemma_square_parts(f as int, r as int);
        }
        let t = (f + 8 * r) as usize;
        match squares[t] {
            None => legal_moves.push((t, MoveType::Regular)),
            Some(p) => {
                if p.colour != colour {
                    legal_moves.push((t, MoveType::Capture));
                }
            },
        }
    }
}

/// Generate the knight's pseudo-legal moves from `piece_index`: the
/// eight jump offsets, each range-checked and file-wrap-checked.
/// Appends exactly the destinations that [`knight_move_kind`] accepts,
/// each with its kind.
#[verifier::rlimit(80)]
pub fn get_knight_legal_moves(
    legal_moves: &mut Vec<(usize, MoveType)>,
    squares: &Vec<Option<Piece>>,
    piece_index: usize,
    colour: &Colour,
)
    requires
        sq_wf(squares@),
        piece_index < 64,
    ensures
        old(legal_moves)@.len() <= final(legal_moves)@.len(),
        forall|j: int|
            0 <= j < old(legal_moves)@.len() ==> final(legal_moves)@[j] == old(legal_moves)@[j],
        forall|j: int|
            #![trigger final(legal_moves)@[j]]
            old(legal_moves)@.len() <= j < final(legal_moves)@.len() ==> knight_move_kind(
                squares@,
                piece_index as int,
                *colour,
                final(legal_moves)@[j].0 as int,
            ) == Some(final(legal_moves)@[j].1),
        forall|t: int|
            0 <= t < 64 && #[trigger] knight_move_kind(squares@, piece_index as int, *colour, t)
                is Some ==> exists|j: int|
                #![trigger final(legal_moves)@[j]]
                old(legal_moves)@.len() <= j < final(legal_moves)@.len() && final(legal_moves)@[j].0 == t,
{
    let ghost m0 = legal_moves@;
    let ghost fi = piece_index as int;
    let mut k: usize = 0;
    while k < 8
        invariant
            sq_wf(squares@),
            piece_index < 64,
            fi == piece_index as int,
            k <= 8,
            m0.len() <= legal_moves@.len(),
            forall|j: int| 0 <= j < m0.len() ==> legal_moves@[j] == m0[j],
            forall|j: int|
                #![trigger legal_moves@[j]]
                m0.len() <= j < legal_moves@.len() ==> knight_move_kind(
                    squares@,
                    fi,
                    *colour,
                    legal_moves@[j].0 as int,
                ) == Some(legal_moves@[j].1),
            forall|t: int|
                0 <= t < 64 && #[trigger] knight_move_kind(squares@, fi, *colour, t) is Some
                    && (exists|n: int|
                    0 <= n < k && file_of(t) - file_of(fi) == knight_off_df(n) && rank_of(t)
                        - rank_of(fi) == #[trigger] knight_off_dr(n)) ==> exists|j: int|
                    #![trigger legal_moves@[j]]
                    m0.len() <= j < legal_moves@.len() && legal_moves@[j].0 == t,
        decreases 8 - k,
    {
        let (df, dr): (i32, i32) = match k {
            0 => (1, 2),
            1 => (2, 1),
            2 => (-1, 2),
            3 => (-2, 1),
            4 => (1, -2),
            5 => (2, -1),
            6 => (-1, -2),
            _ => (-2, -1),
        };
        let ghost prev = legal_moves@;
        try_jump(legal_moves, squares, piece_index, df, dr, *colour);
        proof {
            lemma_all_square_parts();
            assert(knight_off_df(k as int) == df as int && knight_off_dr(k as int) == dr as int);
            let f = file_of(fi) + df;
            let r = rank_of(fi) + dr;
            if 0 <= f < 8 && 0 <= r < 8 {
                let c = square_at(f, r);
                assert(knight_shape(fi, c));
                assert(knight_move_kind(squares@, fi, *colour, c) == occupancy_kind(
                    squares@,
                    *colour,
                    c,
                ));
            }
            assert forall|t: int|
                0 <= t < 64 && #[trigger] knight_move_kind(squares@, fi, *colour, t) is Some
                    && file_of(t) - file_of(fi) == df as int && rank_of(t) - rank_of(fi)
                    == dr as int implies exists|j: int|
                #![trigger legal_moves@[j]]
                m0.len() <= j < legal_moves@.len() && legal_moves@[j].0 == t by {
                assert(t == square_at(file_of(t), rank_of(t)));
                assert(legal_moves@[prev.len() as int].0 == t);
            };
            assert(prev.len() <= legal_moves@.len());
            assert forall|j: int| 0 <= j < prev.len() implies legal_moves@[j] == prev[j] by {};
            assert forall|t: int|
                0 <= t < 64 && #[trigger] knight_move_kind(squares@, fi, *colour, t) is Some && (
                exists|n: int|
                    0 <= n < k as int + 1 && file_of(t) - file_of(fi) == knight_off_df(n)
                        && rank_of(t) - rank_of(fi) == #[trigger] knight_off_dr(
                        n,
                    )) implies exists|j: int|
                #![trigger legal_moves@[j]]
                m0.len() <= j < legal_moves@.len() && legal_moves@[j].0 == t by {
                let n0 = choose|n: int|
                    0 <= n < k as int + 1 && file_of(t) - file_of(fi) == knight_off_df(n)
                        && rank_of(t) - rank_of(fi) == #[trigger] knight_off_dr(n);
                if n0 < k as int {
                    assert(exists|j: int|
                        m0.len() <= j < prev.len() && (#[trigger] prev[j]).0 == t);
                    let j0 = choose|j: int|
                        m0.len() <= j < prev.len() && (#[trigger] prev[j]).0 == t;
                    assert(legal_moves@[j0] == prev[j0]);
                } else {
                    assert(knight_off_df(n0) == df as int && knight_off_dr(n0) == dr as int);
                }
            };
        }
        k += 1;
    }
    proof {
        assert forall|t: int|
            0 <= t < 64 && #[trigger] knight_move_kind(squares@, fi, *colour, t)
                is Some implies exists|n: int|
            0 <= n < 8 && file_of(t) - file_of(fi) == knight_off_df(n) && rank_of(t) - rank_of(fi)
                == #[trigger] knight_off_dr(n) by {
            let dfv = file_of(t) - file_of(fi);
            let drv = rank_of(t) - rank_of(fi);
            if dfv == 1 && drv == 2 {
                assert(knight_off_df(0) == dfv && knight_off_dr(0) == drv);
            } else if dfv == 2 && drv == 1 {
                assert(knight_off_df(1) == dfv && knight_off_dr(1) == drv);
            } else if dfv == -1 && drv == 2 {
                assert(knight_off_df(2) == dfv && knight_off_dr(2) == drv);
            } else if dfv == -2 && drv == 1 {
                assert(knight_off_df(3) == dfv && knight_off_dr(3) == drv);
            } else if dfv == 1 && drv == -2 {
                assert(knight_off_df(4) == dfv && knight_off_dr(4) == drv);
            } else if dfv == 2 && drv == -1 {
                assert(knight_off_df(5) == dfv && knight_off_dr(5) == drv);
            } else if dfv == -1 && drv == -2 {
                assert(knight_off_df(6) == dfv && knight_off_dr(6) == drv);
            } else {
                assert(knight_off_df(7) == dfv && knight_off_dr(7) == drv);
            }
        };
    }
}

/// The file component of the n-th knight jump offset.
pub open spec fn knight_off_df(n: int) -> int {
    if n == 0 || n == 4 {
        1
    } else if n == 1 || n == 5 {
        2
    } else if n == 2 || n == 6 {
        -1
    } else {
        -2
    }
}

/// The rank component of the n-th knight jump offset.
pub open spec fn knight_off_dr(n: int) -> int {
    if n == 0 || n == 2 {
        2
    } else if n == 1 || n == 3 {
        1
    } else if n == 4 || n == 6 {
        -2
    } else {
        -1
    }
}

/// Generate the king's pseudo-legal moves from `piece_index`: the
/// eight adjacent offsets, range-checked and wrap-checked; no castling
/// move is produced. Appends exactly the destinations that
/// [`king_move_kind`] accepts, each with its kind.
#[verifier::rlimit(80)]
pub fn get_king_legal_moves(
    legal_moves: &mut Vec<(usize, MoveType)>,
    squares: &Vec<Option<Piece>>,
    piece_index: usize,
    colour: &Colour,
)
    requires
        sq_wf(squares@),
        piece_index < 64,
    ensures
        old(legal_moves)@.len() <= final(legal_moves)@.len(),
        forall|j: int|
            0 <= j < old(legal_moves)@.len() ==> final(legal_moves)@[j] == old(legal_moves)@[j],
        forall|j: int|
            #![trigger final(legal_moves)@[j]]
            old(legal_moves)@.len() <= j < final(legal_moves)@.len() ==> king_move_kind(
                squares@,
                piece_index as int,
                *colour,
                final(legal_moves)@[j].0 as int,
            ) == Some(final(legal_moves)@[j].1),
        forall|t: int|
            0 <= t < 64 && #[trigger] king_move_kind(squares@, piece_index as int, *colour, t)
                is Some ==> exists|j: int|
                #![trigger final(legal_moves)@[j]]
                old(legal_moves)@.len() <= j < final(legal_moves)@.len() && final(legal_moves)@[j].0 == t,
{
    let ghost m0 = legal_moves@;
    let ghost fi = piece_index as int;
    let mut k: usize = 0;
    while k < 8
        invariant
            sq_wf(squares@),
            piece_index < 64,
            fi == piece_index as int,
            k <= 8,
            m0.len() <= legal_moves@.len(),
            forall|j: int| 0 <= j < m0.len() ==> legal_moves@[j] == m0[j],
            forall|j: int|
                #![trigger legal_moves@[j]]
                m0.len() <= j < legal_moves@.len() ==> king_move_kind(
                    squares@,
                    fi,
                    *colour,
                    legal_moves@[j].0 as int,
                ) == Some(legal_moves@[j].1),
            forall|t: int|
                0 <= t < 64 && #[trigger] king_move_kind(squares@, fi, *colour, t) is Some && (
                exists|n: int|
                    0 <= n < k && file_of(t) - file_of(fi) == king_off_df(n) && rank_of(t)
                        - rank_of(fi) == #[trigger] king_off_dr(n)) ==> exists|j: int|
                    #![trigger legal_moves@[j]]
                    m0.len() <= j < legal_moves@.len() && legal_moves@[j].0 == t,
        decreases 8 - k,
    {
        let (df, dr): (i32, i32) = match k {
            0 => (0, 1),
            1 => (1, 1),
            2 => (1, 0),
            3 => (1, -1),
            4 => (0, -1),
            5 => (-1, -1),
            6 => (-1, 0),
            _ => (-1, 1),
        };
        let ghost prev = legal_moves@;
        try_jump(legal_moves, squares, piece_index, df, dr, *colour);
        proof {
            lemma_all_square_parts();
            assert(king_off_df(k as int) == df as int && king_off_dr(k as int) == dr as int);
            let f = file_of(fi) + df;
            let r = rank_of(fi) + dr;
            if 0 <= f < 8 && 0 <= r < 8 {
                let c = square_at(f, r);
                assert(king_shape(fi, c));
                assert(king_move_kind(squares@, fi, *colour, c) == occupancy_kind(
                    squares@,
                    *colour,
                    c,
                ));
            }
            assert forall|t: int|
                0 <= t < 64 && #[trigger] king_move_kind(squares@, fi, *colour, t) is Some
                    && file_of(t) - file_of(fi) == df as int && rank_of(t) - rank_of(fi)
                    == dr as int implies exists|j: int|
                #![trigger legal_moves@[j]]
                m0.len() <= j < legal_moves@.len() && legal_moves@[j].0 == t by {
                assert(t == square_at(file_of(t), rank_of(t)));
                assert(legal_moves@[prev.len() as int].0 == t);
            };
            assert(prev.len() <= legal_moves@.len());
            assert forall|j: int| 0 <= j < prev.len() implies legal_moves@[j] == prev[j] by {};
            assert forall|t: int|
                0 <= t < 64 && #[trigger] king_move_kind(squares@, fi, *colour, t) is Some && (
                exists|n: int|
                    0 <= n < k as int + 1 && file_of(t) - file_of(fi) == king_off_df(n) && rank_of(
                        t,
                    ) - rank_of(fi) == #[trigger] king_off_dr(n)) implies exists|j: int|
                #![trigger legal_moves@[j]]
                m0.len() <= j < legal_moves@.len() && legal_moves@[j].0 == t by {
                let n0 = choose|n: int|
                    0 <= n < k as int + 1 && file_of(t) - file_of(fi) == king_off_df(n) && rank_of(
                        t,
                    ) - rank_of(fi) == #[trigger] king_off_dr(n);
                if n0 < k as int {
                    assert(exists|j: int|
                        m0.len() <= j < prev.len() && (#[trigger] prev[j]).0 == t);
                    let j0 = choose|j: int|
                        m0.len() <= j < prev.len() && (#[trigger] prev[j]).0 == t;
                    assert(legal_moves@[j0] == prev[j0]);
                } else {
                    assert(king_off_df(n0) == df as int && king_off_dr(n0) == dr as int);
                }
            };
        }
        k += 1;
    }
    proof {
        assert forall|t: int|
            0 <= t < 64 && #[trigger] king_move_kind(squares@, fi, *colour, t)
                is Some implies exists|n: int|
            0 <= n < 8 && file_of(t) - file_of(fi) == king_off_df(n) && rank_of(t) - rank_of(fi)
                == #[trigger] king_off_dr(n) by {
            let dfv = file_of(t) - file_of(fi);
            let drv = rank_of(t) - rank_of(fi);
            if dfv == 0 && drv == 1 {
                assert(king_off_df(0) == dfv && king_off_dr(0) == drv);
            } else if dfv == 1 && drv == 1 {
                assert(king_off_df(1) == dfv && king_off_dr(1) == drv);
            } else if dfv == 1 && drv == 0 {
                assert(king_off_df(2) == dfv && king_off_dr(2) == drv);
            } else if dfv == 1 && drv == -1 {
                assert(king_off_df(3) == dfv && king_off_dr(3) == drv);
            } else if dfv == 0 && drv == -1 {
                assert(king_off_df(4) == dfv && king_off_dr(4) == drv);
            } else if dfv == -1 && drv == -1 {
                assert(king_off_df(5) == dfv && king_off_dr(5) == drv);
            } else if dfv == -1 && drv == 0 {
                assert(king_off_df(6) == dfv && king_off_dr(6) == drv);
            } else {
                assert(king_off_df(7) == dfv && king_off_dr(7) == drv);
            }
        };
    }
}

/// The file component of the n-th king step offset.
pub open spec fn king_off_df(n: int) -> int {
    if n == 0 || n == 4 {
        0
    } else if n == 1 || n == 2 || n == 3 {
        1
    } else {
        -1
    }
}

/// The rank component of the n-th king step offset.
pub open spec fn king_off_dr(n: int) -> int {
    if n == 0 || n == 1 || n == 7 {
        1
    } else if n == 2 || n == 6 {
        0
    } else {
        -1
    }
}

// ------------------------------------------------------------------
// Generators for the sliding pieces: rook, bishop and queen.
// ------------------------------------------------------------------

/// Cast one ray outward from (cf, cr) in direction (df, dr), one step
/// at a time: emit a regular move for each empty square, stop at the
/// board edge, stop with a capture at the first enemy piece, stop with
/// nothing at the first own piece. Appends exactly the squares that
/// [`ray_reaches`] accepts from (cf, cr) and that the occupancy rule
/// lets the mover enter.
fn scan_ray(
    legal_moves: &mut Vec<(usize, MoveType)>,
    squares: &Vec<Option<Piece>>,
    cf: i32,
    cr: i32,
    df: i32,
    dr: i32,
    colour: Colour,
)
    requires
        sq_wf(squares@),
        0 <= cf < 8,
        0 <= cr < 8,
        dir_ok(df as int, dr as int),
    ensures
        old(legal_moves)@.len() <= final(legal_moves)@.len(),
        forall|j: int|
            0 <= j < old(legal_moves)@.len() ==> final(legal_moves)@[j] == old(legal_moves)@[j],
        forall|j: int|
            #![trigger final(legal_moves)@[j]]
            old(legal_moves)@.len() <= j < final(legal_moves)@.len() ==> ray_reaches(
                squares@,
                cf as int,
                cr as int,
                df as int,
                dr as int,
                final(legal_moves)@[j].0 as int,
            ) && occupancy_kind(squares@, colour, final(legal_moves)@[j].0 as int) == Some(
                final(legal_moves)@[j].1,
            ),
        forall|t: int|
            #![trigger ray_reaches(squares@, cf as int, cr as int, df as int, dr as int, t)]
            ray_reaches(squares@, cf as int, cr as int, df as int, dr as int, t)
                && occupancy_kind(squares@, colour, t) is Some ==> exists|j: int|
                #![trigger final(legal_moves)@[j]]
                old(legal_moves)@.len() <= j < final(legal_moves)@.len() && final(legal_moves)@[j].0 == t,
    decreases ray_measure(cf as int, cr as int, df as int, dr as int),
{
    let nf = cf + df;
    let nr = cr + dr;
    if nf < 0 || nf > 7 || nr < 0 || nr > 7 {
        return ;
    }
    proof {
        lemma_square_parts(nf as int, nr as int);
    }
    let t = (nf + 8 * nr) as usize;
    match squares[t] {
        None => {
            legal_moves.push((t, MoveType::Regular));
            let ghost m_push = legal_moves@;
            scan_ray(legal_moves, squares, nf, nr, df, dr, colour);
            proof {
                assert forall|j: int| 0 <= j < m_push.len() implies legal_moves@[j]
                    == m_push[j] by {};
                assert forall|u: int|
                    #![trigger ray_reaches(squares@, cf as int, cr as int, df as int, dr as int, u)]
                    ray_reaches(squares@, cf as int, cr as int, df as int, dr as int, u)
                        && occupancy_kind(squares@, colour, u) is Some implies exists|j: int|
                    #![trigger legal_moves@[j]]
                    old(legal_moves)@.len() <= j < legal_moves@.len() && legal_moves@[j].0
                        == u by {
                    if u == t as int {
                        assert(legal_moves@[m_push.len() - 1].0 == u);
                    } else {
                        assert(ray_reaches(squares@, nf as int, nr as int, df as int, dr as int, u));
                        assert(exists|j: int|
                            m_push.len() <= j < legal_moves@.len() && (
                            #[trigger] legal_moves@[j]).0 == u);
                    }
                };
            }
        },
        Some(p) => {
            if p.colour != colour {
                legal_moves.push((t, MoveType::Capture));
                proof {
                    assert forall|u: int|
                        #![trigger ray_reaches(squares@, cf as int, cr as int, df as int, dr as int, u)]
                        ray_reaches(squares@, cf as int, cr as int, df as int, dr as int, u)
                            && occupancy_kind(squares@, colour, u) is Some implies exists|j: int|
                        #![trigger legal_moves@[j]]
                        old(legal_moves)@.len() <= j < legal_moves@.len() && legal_moves@[j].0
                            == u by {
                        assert(u == t as int);
                        assert(legal_moves@[legal_moves@.len() - 1].0 == u);
                    };
                }
            } else {
                proof {
                    assert forall|u: int|
                        #![trigger ray_reaches(squares@, cf as int, cr as int, df as int, dr as int, u)]
                        ray_reaches(squares@, cf as int, cr as int, df as int, dr as int, u)
                            && occupancy_kind(squares@, colour, u) is Some implies false by {
                        assert(u == t as int);
                    };
                }
            }
        },
    }
}

/// The file component of the n-th orthogonal direction.
pub open spec fn straight_off_df(n: int) -> int {
    if n == 0 || n == 1 {
        0
    } else if n == 2 {
        1
    } else {
        -1
    }
}

/// The rank component of the n-th orthogonal direction.
pub open spec fn straight_off_dr(n: int) -> int {
    if n == 0 {
        1
    } else if n == 1 {
        -1
    } else {
        0
    }
}

/// The file component of the n-th diagonal direction.
pub open spec fn diag_off_df(n: int) -> int {
    if n == 0 || n == 1 {
        1
    } else {
        -1
    }
}

/// The rank component of the n-th diagonal direction.
pub open spec fn diag_off_dr(n: int) -> int {
    if n == 0 || n == 2 {
        1
    } else {
        -1
    }
}

/// Generate the rook's pseudo-legal moves from `piece_index`: four
/// orthogonal rays, each stopping at the board edge, at an own piece,
/// or just after capturing an enemy piece. Appends exactly the
/// destinations that [`rook_move_kind`] accepts, each with its kind.
#[verifier::rlimit(80)]
pub fn get_rook_legal_moves(
    legal_moves: &mut Vec<(usize, MoveType)>,
    squares: &Vec<Option<Piece>>,
    piece_index: usize,
    colour: &Colour,
)
    requires
        sq_wf(squares@),
        piece_index < 64,
    ensures
        old(legal_moves)@.len() <= final(legal_moves)@.len(),
        forall|j: int|
            0 <= j < old(legal_moves)@.len() ==> final(legal_moves)@[j] == old(legal_moves)@[j],
        forall|j: int|
            #![trigger final(legal_moves)@[j]]
            old(legal_moves)@.len() <= j < final(legal_moves)@.len() ==> rook_move_kind(
                squares@,
                piece_index as int,
                *colour,
                final(legal_moves)@[j].0 as int,
            ) == Some(final(legal_moves)@[j].1),
        forall|t: int|
            0 <= t < 64 && #[trigger] rook_move_kind(squares@, piece_index as int, *colour, t)
                is Some ==> exists|j: int|
                #![trigger final(legal_moves)@[j]]
                old(legal_moves)@.len() <= j < final(legal_moves)@.len() && final(legal_moves)@[j].0 == t,
{
    let ghost m0 = legal_moves@;
    let ghost fi = piece_index as int;
    let cf = (piece_index % 8) as i32;
    let cr = (piece_index / 8) as i32;
    let mut k: usize = 0;
    while k < 4
        invariant
            sq_wf(squares@),
            piece_index < 64,
            fi == piece_index as int,
            cf as int == file_of(fi),
            cr as int == rank_of(fi),
            0 <= cf < 8,
            0 <= cr < 8,
            k <= 4,
            m0.len() <= legal_moves@.len(),
            forall|j: int| 0 <= j < m0.len() ==> legal_moves@[j] == m0[j],
            forall|j: int|
                #![trigger legal_moves@[j]]
                m0.len() <= j < legal_moves@.len() ==> rook_move_kind(
                    squares@,
                    fi,
                    *colour,
                    legal_moves@[j].0 as int,
                ) == Some(legal_moves@[j].1),
            forall|t: int|
                0 <= t < 64 && #[trigger] rook_move_kind(squares@, fi, *colour, t) is Some && (
                exists|n: int|
                    0 <= n < k && ray_reaches(
                        squares@,
                        file_of(fi),
                        rank_of(fi),
                        straight_off_df(n),
                        #[trigger] straight_off_dr(n),
                        t,
                    )) ==> exists|j: int|
                    #![trigger legal_moves@[j]]
                    m0.len() <= j < legal_moves@.len() && legal_moves@[j].0 == t,
        decreases 4 - k,
    {
        let (df, dr): (i32, i32) = match k {
            0 => (0, 1),
            1 => (0, -1),
            2 => (1, 0),
            _ => (-1, 0),
        };
        let ghost prev = legal_moves@;
        scan_ray(legal_moves, squares, cf, cr, df, dr, *colour);
        proof {
            assert(straight_off_df(k as int) == df as int && straight_off_dr(k as int)
                == dr as int);
            assert forall|j: int|
                #![trigger legal_moves@[j]]
                m0.len() <= j < legal_moves@.len() implies rook_move_kind(
                squares@,
                fi,
                *colour,
                legal_moves@[j].0 as int,
            ) == Some(legal_moves@[j].1) by {
                if j >= prev.len() {
                    lemma_ray_target_on_board(
                        squares@,
                        cf as int,
                        cr as int,
                        df as int,
                        dr as int,
                        legal_moves@[j].0 as int,
                    );
                }
            };
            assert(prev.len() <= legal_moves@.len());
            assert forall|j: int| 0 <= j < prev.len() implies legal_moves@[j] == prev[j] by {};
            assert forall|t: int|
                0 <= t < 64 && #[trigger] rook_move_kind(squares@, fi, *colour, t) is Some && (
                exists|n: int|
                    0 <= n < k as int + 1 && ray_reaches(
                        squares@,
                        file_of(fi),
                        rank_of(fi),
                        straight_off_df(n),
                        #[trigger] straight_off_dr(n),
                        t,
                    )) implies exists|j: int|
                #![trigger legal_moves@[j]]
                m0.len() <= j < legal_moves@.len() && legal_moves@[j].0 == t by {
                let n0 = choose|n: int|
                    0 <= n < k as int + 1 && ray_reaches(
                        squares@,
                        file_of(fi),
                        rank_of(fi),
                        straight_off_df(n),
                        #[trigger] straight_off_dr(n),
                        t,
                    );
                if n0 < k as int {
                    assert(exists|j: int|
                        m0.len() <= j < prev.len() && (#[trigger] prev[j]).0 == t);
                    let j0 = choose|j: int|
                        m0.len() <= j < prev.len() && (#[trigger] prev[j]).0 == t;
                    assert(legal_moves@[j0] == prev[j0]);
                } else {
                    assert(straight_off_df(n0) == df as int && straight_off_dr(n0) == dr as int);
                }
            };
        }
        k += 1;
    }
    proof {
        assert forall|t: int|
            0 <= t < 64 && #[trigger] rook_move_kind(squares@, fi, *colour, t)
                is Some implies exists|n: int|
            0 <= n < 4 && ray_reaches(
                squares@,
                file_of(fi),
                rank_of(fi),
                straight_off_df(n),
                #[trigger] straight_off_dr(n),
                t,
            ) by {
            let f0 = file_of(fi);
            let r0 = rank_of(fi);
            if ray_reaches(squares@, f0, r0, 0, 1, t) {
                assert(straight_off_df(0) == 0 && straight_off_dr(0) == 1);
            } else if ray_reaches(squares@, f0, r0, 0, -1, t) {
                assert(straight_off_df(1) == 0 && straight_off_dr(1) == -1);
            } else if ray_reaches(squares@, f0, r0, 1, 0, t) {
                assert(straight_off_df(2) == 1 && straight_off_dr(2) == 0);
            } else {
                assert(straight_off_df(3) == -1 && straight_off_dr(3) == 0);
            }
        };
    }
}

/// Generate the bishop's pseudo-legal moves from `piece_index`: four
/// diagonal rays with the same stopping rules as the rook's. Appends
/// exactly the destinations that [`bishop_move_kind`] accepts, each
/// with its kind.
#[verifier::rlimit(80)]
pub fn get_bishop_legal_moves(
    legal_moves: &mut Vec<(usize, MoveType)>,
    squares: &Vec<Option<Piece>>,
    piece_index: usize,
    colour: &Colour,
)
    requires
        sq_wf(squares@),
        piece_index < 64,
    ensures
        old(legal_moves)@.len() <= final(legal_moves)@.len(),
        forall|j: int|
            0 <= j < old(legal_moves)@.len() ==> final(legal_moves)@[j] == old(legal_moves)@[j],
        forall|j: int|
            #![trigger final(legal_moves)@[j]]
            old(legal_moves)@.len() <= j < final(legal_moves)@.len() ==> bishop_move_kind(
                squares@,
                piece_index as int,
                *colour,
                final(legal_moves)@[j].0 as int,
            ) == Some(final(legal_moves)@[j].1),
        forall|t: int|
            0 <= t < 64 && #[trigger] bishop_move_kind(squares@, piece_index as int, *colour, t)
                is Some ==> exists|j: int|
                #![trigger final(legal_moves)@[j]]
                old(legal_moves)@.len() <= j < final(legal_moves)@.len() && final(legal_moves)@[j].0 == t,
{
    let ghost m0 = legal_moves@;
    let ghost fi = piece_index as int;
    let cf = (piece_index % 8) as i32;
    let cr = (piece_index / 8) as i32;
    let mut k: usize = 0;
    while k < 4
        invariant
            sq_wf(squares@),
            piece_index < 64,
            fi == piece_index as int,
            cf as int == file_of(fi),
            cr as int == rank_of(fi),
            0 <= cf < 8,
            0 <= cr < 8,
            k <= 4,
            m0.len() <= legal_moves@.len(),
            forall|j: int| 0 <= j < m0.len() ==> legal_moves@[j] == m0[j],
            forall|j: int|
                #![trigger legal_moves@[j]]
                m0.len() <= j < legal_moves@.len() ==> bishop_move_kind(
                    squares@,
                    fi,
                    *colour,
                    legal_moves@[j].0 as int,
                ) == Some(legal_moves@[j].1),
            forall|t: int|
                0 <= t < 64 && #[trigger] bishop_move_kind(squares@, fi, *colour, t) is Some && (
                exists|n: int|
                    0 <= n < k && ray_reaches(
                        squares@,
                        file_of(fi),
                        rank_of(fi),
                        diag_off_df(n),
                        #[trigger] diag_off_dr(n),
                        t,
                    )) ==> exists|j: int|
                    #![trigger legal_moves@[j]]
                    m0.len() <= j < legal_moves@.len() && legal_moves@[j].0 == t,
        decreases 4 - k,
    {
        let (df, dr): (i32, i32) = match k {
            0 => (1, 1),
            1 => (1, -1),
            2 => (-1, 1),
            _ => (-1, -1),
        };
        let ghost prev = legal_moves@;
        scan_ray(legal_moves, squares, cf, cr, df, dr, *colour);
        proof {
            assert(diag_off_df(k as int) == df as int && diag_off_dr(k as int) == dr as int);
            assert forall|j: int|
                #![trigger legal_moves@[j]]
                m0.len() <= j < legal_moves@.len() implies bishop_move_kind(
                squares@,
                fi,
                *colour,
                legal_moves@[j].0 as int,
            ) == Some(legal_moves@[j].1) by {
                if j >= prev.len() {
                    lemma_ray_target_on_board(
                        squares@,
                        cf as int,
                        cr as int,
                        df as int,
                        dr as int,
                        legal_moves@[j].0 as int,
                    );
                }
            };
            assert(prev.len() <= legal_moves@.len());
            assert forall|j: int| 0 <= j < prev.len() implies legal_moves@[j] == prev[j] by {};
            assert forall|t: int|
                0 <= t < 64 && #[trigger] bishop_move_kind(squares@, fi, *colour, t) is Some && (
                exists|n: int|
                    0 <= n < k as int + 1 && ray_reaches(
                        squares@,
                        file_of(fi),
                        rank_of(fi),
                        diag_off_df(n),
                        #[trigger] diag_off_dr(n),
                        t,
                    )) implies exists|j: int|
                #![trigger legal_moves@[j]]
                m0.len() <= j < legal_moves@.len() && legal_moves@[j].0 == t by {
                let n0 = choose|n: int|
                    0 <= n < k as int + 1 && ray_reaches(
                        squares@,
                        file_of(fi),
                        rank_of(fi),
                        diag_off_df(n),
                        #[trigger] diag_off_dr(n),
                        t,
                    );
                if n0 < k as int {
                    assert(exists|j: int|
                        m0.len() <= j < prev.len() && (#[trigger] prev[j]).0 == t);
                    let j0 = choose|j: int|
                        m0.len() <= j < prev.len() && (#[trigger] prev[j]).0 == t;
                    assert(legal_moves@[j0] == prev[j0]);
                } else {
                    assert(diag_off_df(n0) == df as int && diag_off_dr(n0) == dr as int);
                }
            };
        }
        k += 1;
    }
    proof {
        assert forall|t: int|
            0 <= t < 64 && #[trigger] bishop_move_kind(squares@, fi, *colour, t)
                is Some implies exists|n: int|
            0 <= n < 4 && ray_reaches(
                squares@,
                file_of(fi),
                rank_of(fi),
                diag_off_df(n),
                #[trigger] diag_off_dr(n),
                t,
            ) by {
            let f0 = file_of(fi);
            let r0 = rank_of(fi);
            if ray_reaches(squares@, f0, r0, 1, 1, t) {
                assert(diag_off_df(0) == 1 && diag_off_dr(0) == 1);
            } else if ray_reaches(squares@, f0, r0, 1, -1, t) {
                assert(diag_off_df(1) == 1 && diag_off_dr(1) == -1);
            } else if ray_reaches(squares@, f0, r0, -1, 1, t) {
                assert(diag_off_df(2) == -1 && diag_off_dr(2) == 1);
            } else {
                assert(diag_off_df(3) == -1 && diag_off_dr(3) == -1);
            }
        };
    }
}

/// Generate the queen's pseudo-legal moves from `piece_index`: the
/// union of the bishop's diagonal rays and the rook's orthogonal rays.
/// Appends exactly the destinations that [`queen_move_kind`] accepts,
/// each with its kind.
pub fn get_queen_legal_moves(
    legal_moves: &mut Vec<(usize, MoveType)>,
    squares: &Vec<Option<Piece>>,
    piece_index: usize,
    colour: &Colour,
)
    requires
        sq_wf(squares@),
        piece_index < 64,
    ensures
        old(legal_moves)@.len() <= final(legal_moves)@.len(),
        forall|j: int|
            0 <= j < old(legal_moves)@.len() ==> final(legal_moves)@[j] == old(legal_moves)@[j],
        forall|j: int|
            #![trigger final(legal_moves)@[j]]
            old(legal_moves)@.len() <= j < final(legal_moves)@.len() ==> queen_move_kind(
                squares@,
                piece_index as int,
                *colour,
                final(legal_moves)@[j].0 as int,
            ) == Some(final(legal_moves)@[j].1),
        forall|t: int|
            0 <= t < 64 && #[trigger] queen_move_kind(squares@, piece_index as int, *colour, t)
                is Some ==> exists|j: int|
                #![trigger final(legal_moves)@[j]]
                old(legal_moves)@.len() <= j < final(legal_moves)@.len() && final(legal_moves)@[j].0 == t,
{
    let ghost m0 = legal_moves@;
    let ghost fi = piece_index as int;
    get_bishop_legal_moves(legal_moves, squares, piece_index, colour);
    let ghost m1 = legal_moves@;
    get_rook_legal_moves(legal_moves, squares, piece_index, colour);
    proof {
        assert forall|j: int| 0 <= j < m1.len() implies legal_moves@[j] == m1[j] by {};
        assert forall|t: int|
            0 <= t < 64 && #[trigger] queen_move_kind(squares@, fi, *colour, t)
                is Some implies exists|j: int|
            #![trigger legal_moves@[j]]
            m0.len() <= j < legal_moves@.len() && legal_moves@[j].0 == t by {
            if diagonal_reaches(squares@, fi, t) {
                assert(bishop_move_kind(squares@, fi, *colour, t) is Some);
                let j0 = choose|j: int| m0.len() <= j < m1.len() && (#[trigger] m1[j]).0 == t;
                assert(legal_moves@[j0] == m1[j0]);
            } else {
                assert(straight_reaches(squares@, fi, t));
                assert(rook_move_kind(squares@, fi, *colour, t) is Some);
            }
        };
    }
}

// ------------------------------------------------------------------
// The pawn generator.
// ------------------------------------------------------------------

/// An optional square index, as the spec sees it.
pub open spec fn ep_opt(e: Option<usize>) -> Option<int> {
    match e {
        None => None,
        Some(x) => Some(x as int),
    }
}

/// The white half of the pawn generator: pushes toward higher ranks,
/// captures up-left and up-right, with explicit a-file and h-file
/// wrap exclusion.
#[verifier::rlimit(80)]
fn white_pawn_moves(
    legal_moves: &mut Vec<(usize, MoveType)>,
    squares: &Vec<Option<Piece>>,
    piece_index: usize,
    ep: Option<usize>,
)
    requires
        sq_wf(squares@),
        piece_index < 64,
    ensures
        old(legal_moves)@.len() <= final(legal_moves)@.len(),
        forall|j: int|
            0 <= j < old(legal_moves)@.len() ==> final(legal_moves)@[j] == old(legal_moves)@[j],
        forall|j: int|
            #![trigger final(legal_moves)@[j]]
            old(legal_moves)@.len() <= j < final(legal_moves)@.len() ==> white_pawn_move_kind(
                squares@,
                piece_index as int,
                ep_opt(ep),
                final(legal_moves)@[j].0 as int,
            ) == Some(final(legal_moves)@[j].1),
        forall|t: int|
            0 <= t < 64 && #[trigger] white_pawn_move_kind(
                squares@,
                piece_index as int,
                ep_opt(ep),
                t,
            ) is Some ==> exists|j: int|
                #![trigger final(legal_moves)@[j]]
                old(legal_moves)@.len() <= j < final(legal_moves)@.len() && final(legal_moves)@[j].0 == t,
{
    let ghost m0 = legal_moves@;
    let ghost fi = piece_index as int;
    // one-square push, with a two-square push from the home rank
    if piece_index + 8 < 64 && squares[piece_index + 8].is_none() {
        let target = piece_index + 8;
        if target >= 56 {
            legal_moves.push((target, MoveType::PromotionPush));
        } else {
            legal_moves.push((target, MoveType::Regular));
            if piece_index >= 8 && piece_index < 16 && squares[piece_index + 16].is_none() {
                legal_moves.push((piece_index + 16, MoveType::DoublePush(piece_index + 8)));
            }
        }
    }
    let ghost m1 = legal_moves@;
    // up-left capture: no a-file pawn has one
    if piece_index % 8 != 0 && piece_index + 7 < 64 {
        let target = piece_index + 7;
        match squares[target] {
            Some(p) => {
                if p.colour == Colour::Black {
                    if target >= 56 {
                        legal_moves.push((target, MoveType::PromotionCapture));
                    } else {
                        legal_moves.push((target, MoveType::Capture));
                    }
                }
            },
            None => {
                if let Some(e) = ep {
                    if target == e {
                        legal_moves.push((target, MoveType::EnPassant(target - 8)));
                    }
                }
            },
        }
    }
    let ghost m2 = legal_moves@;
    // up-right capture: no h-file pawn has one
    if piece_index % 8 != 7 && piece_index + 9 < 64 {
        let target = piece_index + 9;
        match squares[target] {
            Some(p) => {
                if p.colour == Colour::Black {
                    if target >= 56 {
                        legal_moves.push((target, MoveType::PromotionCapture));
                    } else {
                        legal_moves.push((target, MoveType::Capture));
                    }
                }
            },
            None => {
                if let Some(e) = ep {
                    if target == e {
                        legal_moves.push((target, MoveType::EnPassant(target - 8)));
                    }
                }
            },
        }
    }
    proof {
        assert forall|j: int| 0 <= j < m1.len() implies legal_moves@[j] == m1[j] by {};
        assert forall|j: int| 0 <= j < m2.len() implies legal_moves@[j] == m2[j] by {};
        assert forall|t: int|
            0 <= t < 64 && #[trigger] white_pawn_move_kind(squares@, fi, ep_opt(ep), t)
                is Some implies exists|j: int|
            #![trigger legal_moves@[j]]
            m0.len() <= j < legal_moves@.len() && legal_moves@[j].0 == t by {
            if t == fi + 8 {
                assert(m1[m0.len() as int].0 == t);
                assert(legal_moves@[m0.len() as int].0 == t);
            } else if t == fi + 16 {
                assert(m1[m0.len() as int + 1].0 == t);
                assert(legal_moves@[m0.len() as int + 1].0 == t);
            } else if t == fi + 7 {
                assert(m2[m2.len() - 1].0 == t);
                assert(legal_moves@[m2.len() - 1].0 == t);
            } else {
                assert(t == fi + 9);
                assert(legal_moves@[legal_moves@.len() - 1].0 == t);
            }
        };
    }
}

/// The black half of the pawn generator: the mirror image, pushing
/// toward lower ranks.
#[verifier::rlimit(80)]
fn black_pawn_moves(
    legal_moves: &mut Vec<(usize, MoveType)>,
    squares: &Vec<Option<Piece>>,
    piece_index: usize,
    ep: Option<usize>,
)
    requires
        sq_wf(squares@),
        piece_index < 64,
    ensures
        old(legal_moves)@.len() <= final(legal_moves)@.len(),
        forall|j: int|
            0 <= j < old(legal_moves)@.len() ==> final(legal_moves)@[j] == old(legal_moves)@[j],
        forall|j: int|
            #![trigger final(legal_moves)@[j]]
            old(legal_moves)@.len() <= j < final(legal_moves)@.len() ==> black_pawn_move_kind(
                squares@,
                piece_index as int,
                ep_opt(ep),
                final(legal_moves)@[j].0 as int,
            ) == Some(final(legal_moves)@[j].1),
        forall|t: int|
            0 <= t < 64 && #[trigger] black_pawn_move_kind(
                squares@,
                piece_index as int,
                ep_opt(ep),
                t,
            ) is Some ==> exists|j: int|
                #![trigger final(legal_moves)@[j]]
                old(legal_moves)@.len() <= j < final(legal_moves)@.len() && final(legal_moves)@[j].0 == t,
{
    let ghost m0 = legal_moves@;
    let ghost fi = piece_index as int;
    // one-square push, with a two-square push from the home rank
    if piece_index >= 8 && squares[piece_index - 8].is_none() {
        let target = piece_index - 8;
        if target < 8 {
            legal_moves.push((target, MoveType::PromotionPush));
        } else {
            legal_moves.push((target, MoveType::Regular));
            if piece_index >= 48 && piece_index < 56 && squares[piece_index - 16].is_none() {
                legal_moves.push((piece_index - 16, MoveType::DoublePush(piece_index - 8)));
            }
        }
    }
    let ghost m1 = legal_moves@;
    // down-right capture: no h-file pawn has one
    if piece_index % 8 != 7 && piece_index >= 7 {
        let target = piece_index - 7;
        match squares[target] {
            Some(p) => {
                if p.colour == Colour::White {
                    if target < 8 {
                        legal_moves.push((target, MoveType::PromotionCapture));
                    } else {
                        legal_moves.push((target, MoveType::Capture));
                    }
                }
            },
            None => {
                if let Some(e) = ep {
                    if target == e {
                        legal_moves.push((target, MoveType::EnPassant(target + 8)));
                    }
                }
            },
        }
    }
    let ghost m2 = legal_moves@;
    // down-left capture: no a-file pawn has one
    if piece_index % 8 != 0 && piece_index >= 9 {
        let target = piece_index - 9;
        match squares[target] {
            Some(p) => {
                if p.colour == Colour::White {
                    if target < 8 {
                        legal_moves.push((target, MoveType::PromotionCapture));
                    } else {
                        legal_moves.push((target, MoveType::Capture));
                    }
                }
            },
            None => {
                if let Some(e) = ep {
                    if target == e {
                        legal_moves.push((target, MoveType::EnPassant(target + 8)));
                    }
                }
            },
        }
    }
    proof {
        assert forall|j: int| 0 <= j < m1.len() implies legal_moves@[j] == m1[j] by {};
        assert forall|j: int| 0 <= j < m2.len() implies legal_moves@[j] == m2[j] by {};
        assert forall|t: int|
            0 <= t < 64 && #[trigger] black_pawn_move_kind(squares@, fi, ep_opt(ep), t)
                is Some implies exists|j: int|
            #![trigger legal_moves@[j]]
            m0.len() <= j < legal_moves@.len() && legal_moves@[j].0 == t by {
            if t == fi - 8 {
                assert(m1[m0.len() as int].0 == t);
                assert(legal_moves@[m0.len() as int].0 == t);
            } else if t == fi - 16 {
                assert(m1[m0.len() as int + 1].0 == t);
                assert(legal_moves@[m0.len() as int + 1].0 == t);
            } else if t == fi - 7 {
                assert(m2[m2.len() - 1].0 == t);
                assert(legal_moves@[m2.len() - 1].0 == t);
            } else {
                assert(t == fi - 9);
                assert(legal_moves@[legal_moves@.len() - 1].0 == t);
            }
        };
    }
}

/// Generate a pawn's pseudo-legal moves from `piece_index`, honouring
/// the active en-passant target. Appends exactly the destinations that
/// [`pawn_move_kind`] accepts, each with its kind.
pub fn get_pawn_legal_moves(
    legal_moves: &mut Vec<(usize, MoveType)>,
    squares: &Vec<Option<Piece>>,
    piece_index: usize,
    colour: &Colour,
    en_passant_target: &Option<Coordinate>,
)
    requires
        sq_wf(squares@),
        piece_index < 64,
        en_passant_target matches Some(c) ==> c.valid(),
    ensures
        old(legal_moves)@.len() <= final(legal_moves)@.len(),
        forall|j: int|
            0 <= j < old(legal_moves)@.len() ==> final(legal_moves)@[j] == old(legal_moves)@[j],
        forall|j: int|
            #![trigger final(legal_moves)@[j]]
            old(legal_moves)@.len() <= j < final(legal_moves)@.len() ==> pawn_move_kind(
                squares@,
                piece_index as int,
                *colour,
                ep_index(*en_passant_target),
                final(legal_moves)@[j].0 as int,
            ) == Some(final(legal_moves)@[j].1),
        forall|t: int|
            0 <= t < 64 && #[trigger] pawn_move_kind(
                squares@,
                piece_index as int,
                *colour,
                ep_index(*en_passant_target),
                t,
            ) is Some ==> exists|j: int|
                #![trigger final(legal_moves)@[j]]
                old(legal_moves)@.len() <= j < final(legal_moves)@.len() && final(legal_moves)@[j].0 == t,
{
    let ep: Option<usize> = match en_passant_target {
        None => None,
        Some(c) => Some(c.to_index()),
    };
    proof {
        assert(ep_opt(ep) == ep_index(*en_passant_target));
    }
    match colour {
        Colour::White => white_pawn_moves(legal_moves, squares, piece_index, ep),
        Colour::Black => black_pawn_moves(legal_moves, squares, piece_index, ep),
    }
}

// ------------------------------------------------------------------
// The dispatcher and the check detector.
// ------------------------------------------------------------------

/// Find all pseudo-legal moves of the piece on `index`, appending
/// `(destination, kind)` pairs to `legal_moves`: exactly the
/// destinations that [`piece_move_kind`] accepts, each with its kind.
pub fn find_legal_moves(
    squares: &Vec<Option<Piece>>,
    legal_moves: &mut Vec<(usize, MoveType)>,
    index: usize,
    en_passant_target: &Option<Coordinate>,
)
    requires
        sq_wf(squares@),
        index < 64,
        squares@[index as int] is Some,
        en_passant_target matches Some(c) ==> c.valid(),
    ensures
        old(legal_moves)@.len() <= final(legal_moves)@.len(),
        forall|j: int|
            0 <= j < old(legal_moves)@.len() ==> final(legal_moves)@[j] == old(legal_moves)@[j],
        forall|j: int|
            #![trigger final(legal_moves)@[j]]
            old(legal_moves)@.len() <= j < final(legal_moves)@.len() ==> piece_move_kind(
                squares@,
                index as int,
                ep_index(*en_passant_target),
                final(legal_moves)@[j].0 as int,
            ) == Some(final(legal_moves)@[j].1),
        forall|t: int|
            0 <= t < 64 && #[trigger] piece_move_kind(
                squares@,
                index as int,
                ep_index(*en_passant_target),
                t,
            ) is Some ==> exists|j: int|
                #![trigger final(legal_moves)@[j]]
                old(legal_moves)@.len() <= j < final(legal_moves)@.len() && final(legal_moves)@[j].0 == t,
{
    let piece = squares[index].unwrap();
    match piece.piece_type {
        PieceType::Pawn => get_pawn_legal_moves(
            legal_moves,
            squares,
            index,
            &piece.colour,
            en_passant_target,
        ),
        PieceType::Knight => get_knight_legal_moves(legal_moves, squares, index, &piece.colour),
        PieceType::Bishop => get_bishop_legal_moves(legal_moves, squares, index, &piece.colour),
        PieceType::Rook => get_rook_legal_moves(legal_moves, squares, index, &piece.colour),
        PieceType::Queen => get_queen_legal_moves(legal_moves, squares, index, &piece.colour),
        PieceType::King => get_king_legal_moves(legal_moves, squares, index, &piece.colour),
    }
}

/// True when square `i` holds the king of colour `c`.
pub open spec fn is_king_at(sq: Seq<Option<Piece>>, i: int, c: Colour) -> bool {
    sq[i] matches Some(p) && p.piece_type == PieceType::King && p.colour == c
}

/// The board holds at least one king of colour `c`.
pub open spec fn has_king(sq: Seq<Option<Piece>>, c: Colour) -> bool {
    exists|i: int| 0 <= i < 64 && is_king_at(sq, i, c)
}

/// The lowest square index at or above `i` holding the king of colour
/// `c`, or 64 when there is none.
pub open spec fn king_square_from(sq: Seq<Option<Piece>>, c: Colour, i: int) -> int
    decreases 64 - i,
{
    if i < 0 || i >= 64 {
        64
    } else if is_king_at(sq, i, c) {
        i
    } else {
        king_square_from(sq, c, i + 1)
    }
}

/// The square of colour `c`'s king: the lowest index holding one.
pub open spec fn king_square(sq: Seq<Option<Piece>>, c: Colour) -> int {
    king_square_from(sq, c, 0)
}

/// True when square `a` holds a piece of the side opposing `c`.
pub open spec fn is_enemy_at(sq: Seq<Option<Piece>>, a: int, c: Colour) -> bool {
    sq[a] matches Some(p) && p.colour == c.opposite()
}

/// Colour `c` is in check: some opposing piece has a pseudo-legal move
/// onto `c`'s king square. En passant plays no part: a king square is
/// never an en-passant target.
pub open spec fn in_check_spec(c: Colour, sq: Seq<Option<Piece>>) -> bool {
    exists|a: int|
        0 <= a < 64 && is_enemy_at(sq, a, c) && #[trigger] piece_move_kind(
            sq,
            a,
            None,
            king_square(sq, c),
        ) is Some
}

/// The first king found scanning upward from 0 is the king square.
proof fn lemma_king_square_from(sq: Seq<Option<Piece>>, c: Colour, i: int, k: int)
    requires
        0 <= i <= k < 64,
        is_king_at(sq, k, c),
        forall|j: int| i <= j < k ==> !is_king_at(sq, j, c),
    ensures
        king_square_from(sq, c, i) == k,
    decreases k - i,
{
    if i < k {
        lemma_king_square_from(sq, c, i + 1, k);
    }
}

/// Is the given colour currently in check? Locates that colour's king
/// (the caller must guarantee one is on the board) and asks whether
/// any opposing piece generates a move onto its square.
pub fn in_check(this_colour: &Colour, squares: &Vec<Option<Piece>>) -> (r: bool)
    requires
        sq_wf(squares@),
        has_king(squares@, *this_colour),
    ensures
        r == in_check_spec(*this_colour, squares@),
{
    let opp = match this_colour {
        Colour::White => Colour::Black,
        Colour::Black => Colour::White,
    };
    // locate the king by linear scan: the lowest index wins
    let mut king_location: usize = 0;
    let mut found = false;
    let mut i: usize = 0;
    while i < 64
        invariant
            i <= 64,
            sq_wf(squares@),
            !found ==> (forall|j: int| 0 <= j < i ==> !is_king_at(squares@, j, *this_colour)),
            found ==> (king_location < 64 && is_king_at(
                squares@,
                king_location as int,
                *this_colour,
            ) && (forall|j: int| 0 <= j < king_location ==> !is_king_at(squares@, j, *this_colour))),
        decreases 64 - i,
    {
        if !found {
            match squares[i] {
                Some(p) => {
                    if p.piece_type == PieceType::King && p.colour == *this_colour {
                        found = true;
                        king_location = i;
                    }
                },
                None => {},
            }
        }
        i += 1;
    }
    proof {
        assert(found);
        lemma_king_square_from(squares@, *this_colour, 0, king_location as int);
    }
    // ask every opposing piece whether it can reach the king square
    let mut a: usize = 0;
    while a < 64
        invariant
            a <= 64,
            sq_wf(squares@),
            king_location < 64,
            king_square(squares@, *this_colour) == king_location as int,
            opp == this_colour.opposite(),
            forall|x: int|
                0 <= x < a && is_enemy_at(squares@, x, *this_colour) ==> !(
                #[trigger] piece_move_kind(squares@, x, None, king_location as int) is Some),
        decreases 64 - a,
    {
        let attacker = match squares[a] {
            Some(p) => p.colour == opp,
            None => false,
        };
        if attacker {
            let mut moves: Vec<(usize, MoveType)> = Vec::new();
            let no_ep: Option<Coordinate> = None;
            find_legal_moves(squares, &mut moves, a, &no_ep);
            let mut j: usize = 0;
            while j < moves.len()
                invariant
                    j <= moves@.len(),
                    sq_wf(squares@),
                    a < 64,
                    king_location < 64,
                    king_square(squares@, *this_colour) == king_location as int,
                    is_enemy_at(squares@, a as int, *this_colour),
                    forall|y: int|
                        #![trigger moves@[y]]
                        0 <= y < moves@.len() ==> piece_move_kind(
                            squares@,
                            a as int,
                            None,
                            moves@[y].0 as int,
                        ) == Some(moves@[y].1),
                    forall|t: int|
                        0 <= t < 64 && #[trigger] piece_move_kind(squares@, a as int, None, t)
                            is Some ==> exists|y: int|
                            #![trigger moves@[y]]
                            0 <= y < moves@.len() && moves@[y].0 == t,
                    forall|y: int| 0 <= y < j ==> (#[trigger] moves@[y]).0 != king_location,
                decreases moves@.len() - j,
            {
                if moves[j].0 == king_location {
                    proof {
                        assert(piece_move_kind(
                            squares@,
                            a as int,
                            None,
                            king_location as int,
                        ) is Some);
                    }
                    return true;
                }
                j += 1;
            }
            proof {
                if piece_move_kind(squares@, a as int, None, king_location as int) is Some {
                    let y0 = choose|y: int|
                        0 <= y < moves@.len() && (#[trigger] moves@[y]).0 == king_location as int;
                    assert(false);
                }
            }
        }
        a += 1;
    }
    false
}

/// [`lemma_square_parts`], quantified over every on-board file and rank.
proof fn lemma_all_square_parts()
    ensures
        forall|f: int, r: int|
            0 <= f < 8 && 0 <= r < 8 ==> file_of(#[trigger] square_at(f, r)) == f && rank_of(
                square_at(f, r),
            ) == r && 0 <= square_at(f, r) < 64,
{
    assert forall|f: int, r: int| 0 <= f < 8 && 0 <= r < 8 implies file_of(
        #[trigger] square_at(f, r),
    ) == f && rank_of(square_at(f, r)) == r && 0 <= square_at(f, r) < 64 by {
        lemma_square_parts(f, r);
    };
}

} // verus!
