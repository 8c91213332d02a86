//! The FEN codec: parsing the six whitespace-separated fields of a
//! Forsyth-Edwards Notation string into a [`Board`], and exporting a
//! board back to FEN text.
//!
//! The spec layer models the text exactly: fields are the maximal
//! whitespace-free runs, the placement field splits on '/', each rank
//! expands digit-by-digit and letter-by-letter, and export collapses
//! empty runs back into digits.

use vstd::prelude::*;

use crate::board::{castling_of, castling_ok, is_castling_char, Board, CastlingRights};
use crate::coordinate::{digit_value, is_ascii_digit, Coordinate};
use crate::errors::BoardError;
use crate::pieces::{char_piece, piece_char, Colour, Piece, PieceType};

verus! {

// ------------------------------------------------------------------
// Tokenization: fields are maximal whitespace-free runs.
// ------------------------------------------------------------------

/// The ASCII whitespace characters that separate FEN fields.
pub open spec fn is_ws(c: char) -> bool {
    c == ' ' || c == '\t' || c == '\n' || c == '\r' || c == '\u{c}'
}

/// The first index at or after `i` holding a non-whitespace
/// character, or the length.
pub open spec fn skip_ws_from(s: Seq<char>, i: int) -> int
    decreases s.len() - i,
{
    if i < 0 || i >= s.len() {
        s.len() as int
    } else if is_ws(s[i]) {
        skip_ws_from(s, i + 1)
    } else {
        i
    }
}

/// The first index at or after `i` holding a whitespace character, or
/// the length: the end of the token starting at `i`.
pub open spec fn token_end_from(s: Seq<char>, i: int) -> int
    decreases s.len() - i,
{
    if i < 0 || i >= s.len() {
        s.len() as int
    } else if is_ws(s[i]) {
        i
    } else {
        token_end_from(s, i + 1)
    }
}

/// Both scan positions stay between their start and the length.
proof fn lemma_scan_bounds(s: Seq<char>, i: int)
    requires
        0 <= i <= s.len(),
    ensures
        i <= skip_ws_from(s, i) <= s.len(),
        i <= token_end_from(s, i) <= s.len(),
    decreases s.len() - i,
{
    if i < s.len() {
        lemma_scan_bounds(s, i + 1);
    }
}

/// The whitespace-separated fields of `s`, from position `i` on.
pub open spec fn split_ws_from(s: Seq<char>, i: int) -> Seq<Seq<char>>
    decreases s.len() - i,
    via split_ws_from_decreases
{
    if i < 0 || i >= s.len() {
        Seq::empty()
    } else if is_ws(s[i]) {
        split_ws_from(s, i + 1)
    } else {
        let e = token_end_from(s, i);
        seq![s.subrange(i, e)] + split_ws_from(s, e)
    }
}

#[via_fn]
proof fn split_ws_from_decreases(s: Seq<char>, i: int) {
    if 0 <= i < s.len() && !is_ws(s[i]) {
        lemma_scan_bounds(s, i + 1);
        assert(token_end_from(s, i) == token_end_from(s, i + 1));
    }
}

/// The whitespace-separated fields of `s`.
pub open spec fn split_ws(s: Seq<char>) -> Seq<Seq<char>> {
    split_ws_from(s, 0)
}

/// One splitting step, as the tokenizer performs it: skip whitespace,
/// then take the token up to the next whitespace.
proof fn lemma_split_step(s: Seq<char>, i: int)
    requires
        0 <= i <= s.len(),
    ensures
        skip_ws_from(s, i) >= s.len() ==> split_ws_from(s, i) == Seq::<Seq<char>>::empty(),
        skip_ws_from(s, i) < s.len() ==> split_ws_from(s, i) == seq![
            s.subrange(skip_ws_from(s, i), token_end_from(s, skip_ws_from(s, i))),
        ] + split_ws_from(s, token_end_from(s, skip_ws_from(s, i))),
    decreases s.len() - i,
{
    if i < s.len() && is_ws(s[i]) {
        lemma_split_step(s, i + 1);
    }
}

/// Find the next whitespace-separated token at or after `from`:
/// returns its start and end, both the length when none is left.
fn next_token(s: &str, from: usize) -> (r: (usize, usize))
    requires
        from <= s@.len(),
    ensures
        r.0 == skip_ws_from(s@, from as int),
        r.0 < s@.len() ==> r.1 == token_end_from(s@, r.0 as int),
        r.0 >= s@.len() ==> r.1 == s@.len(),
        from <= r.0 <= r.1 <= s@.len(),
        r.0 < r.1 || r.0 == s@.len(),
{
    let n = s.unicode_len();
    let mut start = from;
    while start < n && is_ws_char(s.get_char(start))
        invariant
            from <= start <= n,
            n == s@.len(),
            skip_ws_from(s@, from as int) == skip_ws_from(s@, start as int),
        decreases n - start,
    {
        start += 1;
    }
    if start >= n {
        return (n, n);
    }
    let mut end = start;
    while end < n && !is_ws_char(s.get_char(end))
        invariant
            start <= end <= n,
            n == s@.len(),
            token_end_from(s@, start as int) == token_end_from(s@, end as int),
        decreases n - end,
    {
        end += 1;
    }
    proof {
        lemma_scan_bounds(s@, start as int);
    }
    (start, end)
}

/// Whether a character separates FEN fields.
fn is_ws_char(c: char) -> (r: bool)
    ensures
        r == is_ws(c),
{
    c == ' ' || c == '\t' || c == '\n' || c == '\r' || c == '\u{c}'
}

// ------------------------------------------------------------------
// The placement field: eight '/'-separated ranks, rank 8 first.
// ------------------------------------------------------------------

/// The first index at or after `i` holding '/', or the length.
pub open spec fn slash_end_from(s: Seq<char>, i: int) -> int
    decreases s.len() - i,
{
    if i < 0 || i >= s.len() {
        s.len() as int
    } else if s[i] == '/' {
        i
    } else {
        slash_end_from(s, i + 1)
    }
}

/// The slash scan stays between its start and the length.
proof fn lemma_slash_bounds(s: Seq<char>, i: int)
    requires
        0 <= i <= s.len(),
    ensures
        i <= slash_end_from(s, i) <= s.len(),
    decreases s.len() - i,
{
    if i < s.len() {
        lemma_slash_bounds(s, i + 1);
    }
}

/// The '/'-separated parts of `s` from position `i` on; empty parts
/// are kept, so there is always one part more than there are slashes.
pub open spec fn split_slash_from(s: Seq<char>, i: int) -> Seq<Seq<char>>
    decreases s.len() - i,
    via split_slash_from_decreases
{
    let e = slash_end_from(s, i);
    if i < 0 || i > s.len() {
        Seq::empty()
    } else if e >= s.len() {
        seq![s.subrange(i, s.len() as int)]
    } else {
        seq![s.subrange(i, e)] + split_slash_from(s, e + 1)
    }
}

#[via_fn]
proof fn split_slash_from_decreases(s: Seq<char>, i: int) {
    if 0 <= i <= s.len() {
        lemma_slash_bounds(s, i);
    }
}

/// The '/'-separated parts of `s`.
pub open spec fn split_slash(s: Seq<char>) -> Seq<Seq<char>> {
    split_slash_from(s, 0)
}

/// What one placement character contributes to a rank: a piece for a
/// FEN letter, that many empty squares for a digit, nothing otherwise.
pub open spec fn char_expansion(c: char) -> Seq<Option<Piece>> {
    if char_piece(c) is Some {
        seq![Some(char_piece(c)->0)]
    } else if is_ascii_digit(c) {
        Seq::new(digit_value(c) as nat, |j: int| None)
    } else {
        Seq::empty()
    }
}

/// The squares a rank string denotes, after digit-expansion and
/// letter-to-piece mapping, file a to file h.
pub open spec fn expand_rank(rs: Seq<char>) -> Seq<Option<Piece>>
    decreases rs.len(),
{
    if rs.len() == 0 {
        Seq::empty()
    } else {
        char_expansion(rs[0]) + expand_rank(rs.drop_first())
    }
}

/// True of characters a rank string may hold: FEN piece letters and
/// ASCII digits.
pub open spec fn rank_char_ok(c: char) -> bool {
    char_piece(c) is Some || is_ascii_digit(c)
}

/// All characters of the rank are piece letters or digits.
pub open spec fn rank_chars_ok(rs: Seq<char>) -> bool {
    forall|j: int| 0 <= j < rs.len() ==> rank_char_ok(#[trigger] rs[j])
}

/// A rank parses: valid characters whose expansion totals exactly
/// eight squares.
pub open spec fn rank_ok(rs: Seq<char>) -> bool {
    rank_chars_ok(rs) && expand_rank(rs).len() == 8
}

/// True of 'a' through 'z' and 'A' through 'Z'.
pub open spec fn is_ascii_letter(c: char) -> bool {
    ('a' as int <= c as int <= 'z' as int) || ('A' as int <= c as int <= 'Z' as int)
}

/// Whether the first invalid character of a rank is a letter (and so
/// reported as a piece error rather than a general placement error).
pub open spec fn rank_bad_letter(rs: Seq<char>) -> bool
    decreases rs.len(),
{
    if rs.len() == 0 {
        false
    } else if rank_char_ok(rs[0]) {
        rank_bad_letter(rs.drop_first())
    } else {
        is_ascii_letter(rs[0])
    }
}

/// The placement field parses: exactly eight ranks, each of them
/// valid.
pub open spec fn placement_ok(parts: Seq<Seq<char>>) -> bool {
    parts.len() == 8 && forall|x: int| 0 <= x < 8 ==> rank_ok(#[trigger] parts[x])
}

/// The squares of ranks `x` (from the bottom) and above: ranks are
/// consumed in reverse textual order so that index 0 is a1.
pub open spec fn placement_squares_from(parts: Seq<Seq<char>>, x: int) -> Seq<Option<Piece>>
    decreases 8 - x,
{
    if x < 0 || x >= 8 {
        Seq::empty()
    } else {
        expand_rank(parts[7 - x]) + placement_squares_from(parts, x + 1)
    }
}

/// The full 64-square board a placement field denotes.
pub open spec fn placement_squares(parts: Seq<Seq<char>>) -> Seq<Option<Piece>> {
    placement_squares_from(parts, 0)
}

/// Whether the first failing rank, in parsing order (rank 1 first),
/// fails on a letter that is no piece.
pub open spec fn placement_err_piece_from(parts: Seq<Seq<char>>, x: int) -> bool
    decreases 8 - x,
{
    if x < 0 || x >= 8 {
        false
    } else {
        let rs = parts[7 - x];
        if !rank_chars_ok(rs) {
            rank_bad_letter(rs)
        } else if expand_rank(rs).len() != 8 {
            false
        } else {
            placement_err_piece_from(parts, x + 1)
        }
    }
}

// ------------------------------------------------------------------
// The counters: non-negative decimal integers.
// ------------------------------------------------------------------

/// The value of a digit string, most significant digit first.
pub open spec fn digits_val(s: Seq<char>) -> int
    decreases s.len(),
{
    if s.len() == 0 {
        0
    } else {
        digits_val(s.drop_last()) * 10 + digit_value(s.last())
    }
}

/// A counter token parses: non-empty, all digits, and the value fits
/// the machine word.
pub open spec fn int_ok(s: Seq<char>) -> bool {
    s.len() > 0 && (forall|j: int| 0 <= j < s.len() ==> is_ascii_digit(#[trigger] s[j]))
        && digits_val(s) <= usize::MAX as int
}

/// Appending digits never shrinks the value.
proof fn lemma_digits_val_nonneg(s: Seq<char>)
    requires
        forall|j: int| 0 <= j < s.len() ==> is_ascii_digit(#[trigger] s[j]),
    ensures
        digits_val(s) >= 0,
    decreases s.len(),
{
    if s.len() > 0 {
        assert(forall|j: int|
            0 <= j < s.drop_last().len() ==> is_ascii_digit(#[trigger] s.drop_last()[j]));
        lemma_digits_val_nonneg(s.drop_last());
    }
}

/// A digit-string prefix never exceeds the whole string's value.
proof fn lemma_digits_val_prefix(s: Seq<char>, i: int)
    requires
        0 <= i <= s.len(),
        forall|j: int| 0 <= j < s.len() ==> is_ascii_digit(#[trigger] s[j]),
    ensures
        digits_val(s.subrange(0, i)) <= digits_val(s),
    decreases s.len() - i,
{
    if i < s.len() {
        lemma_digits_val_prefix(s, i + 1);
        let a = s.subrange(0, i);
        let b = s.subrange(0, i + 1);
        assert(b.drop_last() =~= a);
        assert(b.last() == s[i]);
        lemma_digits_val_nonneg(a);
    } else {
        assert(s.subrange(0, i) =~= s);
    }
}

/// Parse a counter token as a non-negative integer, rejecting
/// non-digits and values over the machine word.
pub fn parse_usize(s: &str) -> (r: Result<usize, BoardError>)
    ensures
        r is Ok <==> int_ok(s@),
        r is Ok ==> r->Ok_0 as int == digits_val(s@),
        r is Err ==> r->Err_0 == BoardError::ParseInt,
{
    let n = s.unicode_len();
    if n == 0 {
        return Err(BoardError::ParseInt);
    }
    let mut acc: usize = 0;
    let mut i: usize = 0;
    while i < n
        invariant
            i <= n,
            n == s@.len(),
            forall|j: int| 0 <= j < i ==> is_ascii_digit(#[trigger] s@[j]),
            acc as int == digits_val(s@.subrange(0, i as int)),
        decreases n - i,
    {
        let c = s.get_char(i);
        let cv = c as u32;
        if cv < 48 || cv > 57 {
            return Err(BoardError::ParseInt);
        }
        let d = (cv - 48) as usize;
        if acc > usize::MAX / 10 || (acc == usize::MAX / 10 && d > usize::MAX % 10) {
            proof {
                let pre = s@.subrange(0, i as int + 1);
                assert(pre.drop_last() =~= s@.subrange(0, i as int));
                assert(pre.last() == s@[i as int]);
                assert(digits_val(pre) > usize::MAX as int);
                if int_ok(s@) {
                    lemma_digits_val_prefix(s@, i as int + 1);
                }
            }
            return Err(BoardError::ParseInt);
        }
        proof {
            let pre = s@.subrange(0, i as int + 1);
            assert(pre.drop_last() =~= s@.subrange(0, i as int));
            assert(pre.last() == s@[i as int]);
        }
        acc = acc * 10 + d;
        i += 1;
    }
    proof {
        assert(s@.subrange(0, n as int) =~= s@);
    }
    Ok(acc)
}

// ------------------------------------------------------------------
// Parsing the placement field.
// ------------------------------------------------------------------

/// Expansion distributes over appending one character.
proof fn lemma_expand_push(a: Seq<char>, c: char)
    ensures
        expand_rank(a.push(c)) == expand_rank(a) + char_expansion(c),
    decreases a.len(),
{
    if a.len() == 0 {
        assert(a.push(c).drop_first() =~= Seq::<char>::empty());
        assert(a.push(c)[0] == c);
        assert(expand_rank(a.push(c)) == char_expansion(c) + expand_rank(a.push(c).drop_first()));
        assert(expand_rank(a.push(c)) =~= char_expansion(c));
        assert(expand_rank(a) + char_expansion(c) =~= char_expansion(c));
    } else {
        assert(a.push(c).drop_first() =~= a.drop_first().push(c));
        lemma_expand_push(a.drop_first(), c);
        assert(expand_rank(a.push(c)) =~= expand_rank(a) + char_expansion(c));
    }
}

/// When every character before `i` is valid and the one at `i` is
/// not, the rank's reported error class is decided by that character.
proof fn lemma_bad_letter_at(rs: Seq<char>, i: int)
    requires
        0 <= i < rs.len(),
        forall|j: int| 0 <= j < i ==> rank_char_ok(#[trigger] rs[j]),
        !rank_char_ok(rs[i]),
    ensures
        rank_bad_letter(rs) == is_ascii_letter(rs[i]),
    decreases i,
{
    if i > 0 {
        lemma_bad_letter_at(rs.drop_first(), i - 1);
    }
}

/// Parse one rank of the placement field onto the end of `squares`:
/// a digit appends that many empty squares, a letter its piece; the
/// expansion must total exactly eight squares. On failure `squares`
/// is left untouched.
fn parse_rank(squares: &mut Vec<Option<Piece>>, rs: &str) -> (r: Result<(), BoardError>)
    ensures
        r is Ok <==> rank_ok(rs@),
        r is Ok ==> final(squares)@ == old(squares)@ + expand_rank(rs@),
        r is Err ==> final(squares)@ == old(squares)@,
        r is Err ==> (if !rank_chars_ok(rs@) {
            if rank_bad_letter(rs@) {
                r->Err_0 == BoardError::PieceError
            } else {
                r->Err_0 is FenError
            }
        } else {
            r->Err_0 is FenError
        }),
{
    let n = rs.unicode_len();
    let mut rank_data: Vec<Option<Piece>> = Vec::new();
    let mut i: usize = 0;
    while i < n
        invariant
            i <= n,
            n == rs@.len(),
            forall|j: int| 0 <= j < i ==> rank_char_ok(#[trigger] rs@[j]),
            rank_data@ == expand_rank(rs@.subrange(0, i as int)),
        decreases n - i,
    {
        let ghost pre = rs@.subrange(0, i as int);
        let c = rs.get_char(i);
        proof {
            assert(rs@.subrange(0, i as int + 1) =~= pre.push(c));
            lemma_expand_push(pre, c);
        }
        match Piece::from_char(c) {
            Ok(p) => {
                rank_data.push(Some(p));
                proof {
                    assert(char_expansion(c) =~= seq![Some(char_piece(c)->0)]);
                    assert(rank_data@ =~= expand_rank(rs@.subrange(0, i as int + 1)));
                }
            },
            Err(_) => {
                let cv = c as u32;
                if cv >= 48 && cv <= 57 {
                    let d = (cv - 48) as usize;
                    let ghost before = rank_data@;
                    let mut x: usize = 0;
                    while x < d
                        invariant
                            x <= d,
                            d == digit_value(c),
                            rank_data@ == before + Seq::new(x as nat, |j: int| None::<Piece>),
                        decreases d - x,
                    {
                        rank_data.push(None);
                        proof {
                            assert(rank_data@ =~= before + Seq::new(
                                (x + 1) as nat,
                                |j: int| None::<Piece>,
                            ));
                        }
                        x += 1;
                    }
                    proof {
                        assert(char_expansion(c) =~= Seq::new(d as nat, |j: int| None::<Piece>));
                        assert(rank_data@ =~= expand_rank(rs@.subrange(0, i as int + 1)));
                    }
                } else if (cv >= 97 && cv <= 122) || (cv >= 65 && cv <= 90) {
                    proof {
                        lemma_bad_letter_at(rs@, i as int);
                    }
                    return Err(BoardError::PieceError);
                } else {
                    proof {
                        lemma_bad_letter_at(rs@, i as int);
                    }
                    return Err(BoardError::FenError(String::from_str(
                        "invalid placement character",
                    )));
                }
            },
        }
        i += 1;
    }
    proof {
        assert(rs@.subrange(0, n as int) =~= rs@);
    }
    if rank_data.len() != 8 {
        return Err(BoardError::FenError(String::from_str("rank length must equal 8")));
    }
    squares.append(&mut rank_data);
    Ok(())
}

/// When the ranks below `x` are valid and rank `x` is not, the
/// placement's reported error class is decided by rank `x`.
proof fn lemma_placement_err_at(parts: Seq<Seq<char>>, x: int)
    requires
        0 <= x < 8,
        parts.len() == 8,
        forall|y: int| 0 <= y < x ==> rank_ok(#[trigger] parts[7 - y]),
        !rank_ok(parts[7 - x]),
    ensures
        placement_err_piece_from(parts, 0) == (if !rank_chars_ok(parts[7 - x]) {
            rank_bad_letter(parts[7 - x])
        } else {
            false
        }),
    decreases x,
{
    if x > 0 {
        lemma_placement_err_at_from(parts, x, 0);
    }
}

/// Helper for [`lemma_placement_err_at`]: the scan passes every valid
/// rank unchanged.
proof fn lemma_placement_err_at_from(parts: Seq<Seq<char>>, x: int, y: int)
    requires
        0 <= y <= x < 8,
        parts.len() == 8,
        forall|z: int| 0 <= z < x ==> rank_ok(#[trigger] parts[7 - z]),
        !rank_ok(parts[7 - x]),
    ensures
        placement_err_piece_from(parts, y) == (if !rank_chars_ok(parts[7 - x]) {
            rank_bad_letter(parts[7 - x])
        } else {
            false
        }),
    decreases x - y,
{
    if y < x {
        lemma_placement_err_at_from(parts, x, y + 1);
    }
}

/// Parse the whole placement field: split it on '/', require exactly
/// eight ranks, and expand them in reverse textual order so that
/// index 0 is a1.
fn parse_placement(f: &str) -> (r: Result<Vec<Option<Piece>>, BoardError>)
    ensures
        r is Ok <==> placement_ok(split_slash(f@)),
        r is Ok ==> r->Ok_0@ == placement_squares(split_slash(f@)) && r->Ok_0@.len() == 64,
        r is Err ==> ({
            let parts = split_slash(f@);
            if parts.len() != 8 {
                r->Err_0 is FenError
            } else if placement_err_piece_from(parts, 0) {
                r->Err_0 == BoardError::PieceError
            } else {
                r->Err_0 is FenError
            }
        }),
{
    let n = f.unicode_len();
    let ghost parts = split_slash(f@);
    // collect the '/'-separated parts as index ranges
    let mut bounds: Vec<(usize, usize)> = Vec::new();
    let mut pos: usize = 0;
    let mut done = false;
    while !done
        invariant
            pos <= n,
            n == f@.len(),
            parts == split_slash(f@),
            bounds@.len() <= parts.len(),
            forall|x: int|
                #![trigger bounds@[x]]
                0 <= x < bounds@.len() ==> bounds@[x].0 <= bounds@[x].1 <= n && parts[x]
                    == f@.subrange(bounds@[x].0 as int, bounds@[x].1 as int),
            !done ==> parts =~= parts.subrange(0, bounds@.len() as int) + split_slash_from(
                f@,
                pos as int,
            ),
            done ==> bounds@.len() == parts.len(),
        decreases n - pos + (if done {
            0int
        } else {
            1int
        }),
    {
        let mut e = pos;
        while e < n && f.get_char(e) != '/'
            invariant
                pos <= e <= n,
                n == f@.len(),
                slash_end_from(f@, pos as int) == slash_end_from(f@, e as int),
            decreases n - e,
        {
            e += 1;
        }
        proof {
            assert(slash_end_from(f@, pos as int) == e as int);
        }
        let ghost k = bounds@.len() as int;
        bounds.push((pos, e));
        proof {
            assert(split_slash_from(f@, pos as int) == seq![
                f@.subrange(pos as int, e as int),
            ] + (if e < n {
                split_slash_from(f@, e as int + 1)
            } else {
                Seq::<Seq<char>>::empty()
            }));
            assert(parts[k] == f@.subrange(pos as int, e as int));
            if e < n {
                assert(parts =~= parts.subrange(0, k + 1) + split_slash_from(f@, e as int + 1));
            } else {
                assert(parts =~= parts.subrange(0, k + 1));
            }
        }
        if e < n {
            pos = e + 1;
        } else {
            done = true;
        }
    }
    if bounds.len() != 8 {
        return Err(BoardError::FenError(String::from_str(
            "piece placement must hold exactly 8 ranks",
        )));
    }
    // expand the ranks in reverse order: rank 1 first
    let mut squares: Vec<Option<Piece>> = Vec::new();
    let mut x: usize = 0;
    while x < 8
        invariant
            x <= 8,
            n == f@.len(),
            parts == split_slash(f@),
            bounds@.len() == 8,
            parts.len() == 8,
            forall|y: int|
                #![trigger bounds@[y]]
                0 <= y < 8 ==> bounds@[y].0 <= bounds@[y].1 <= n && parts[y] == f@.subrange(
                    bounds@[y].0 as int,
                    bounds@[y].1 as int,
                ),
            forall|y: int| 0 <= y < x ==> rank_ok(#[trigger] parts[7 - y]),
            squares@.len() == 8 * x,
            squares@ + placement_squares_from(parts, x as int) =~= placement_squares(parts),
        decreases 8 - x,
    {
        let b = bounds[7 - x];
        let rank_str = f.substring_char(b.0, b.1);
        let ghost before = squares@;
        match parse_rank(&mut squares, rank_str) {
            Ok(_) => {},
            Err(e) => {
                proof {
                    lemma_placement_err_at(parts, x as int);
                }
                return Err(e);
            },
        }
        proof {
            assert(squares@ =~= before + expand_rank(parts[7 - x as int]));
            assert(squares@ + placement_squares_from(parts, x as int + 1) =~= placement_squares(
                parts,
            ));
        }
        x += 1;
    }
    proof {
        assert forall|y: int| 0 <= y < 8 implies rank_ok(#[trigger] parts[y]) by {
            assert(rank_ok(parts[7 - (7 - y)]));
        };
        assert(placement_squares_from(parts, 8) =~= Seq::<Option<Piece>>::empty());
        assert(squares@ =~= placement_squares(parts));
    }
    Ok(squares)
}

// ------------------------------------------------------------------
// The whole FEN string.
// ------------------------------------------------------------------

/// The en-passant field's "no target" token.
pub open spec fn is_dash(s: Seq<char>) -> bool {
    s.len() == 1 && s[0] == '-'
}

/// The en-passant field parses: "-" or a valid square.
pub open spec fn ep_ok(s: Seq<char>) -> bool {
    is_dash(s) || Coordinate::spec_of_str(s) is Some
}

/// The en-passant target an en-passant field denotes.
pub open spec fn ep_of(s: Seq<char>) -> Option<Coordinate> {
    if is_dash(s) {
        None
    } else {
        Some(Coordinate::spec_of_str(s)->0)
    }
}

/// A FEN string parses: exactly six whitespace-separated fields, each
/// of them valid.
pub open spec fn fen_ok(s: Seq<char>) -> bool {
    let fs = split_ws(s);
    fs.len() == 6 && Colour::spec_of_str(fs[1]) is Some && castling_ok(fs[2]) && ep_ok(fs[3])
        && int_ok(fs[4]) && int_ok(fs[5]) && placement_ok(split_slash(fs[0]))
}

/// The squares a FEN string denotes.
pub open spec fn fen_squares(s: Seq<char>) -> Seq<Option<Piece>> {
    placement_squares(split_slash(split_ws(s)[0]))
}

/// The side to move a FEN string denotes.
pub open spec fn fen_colour(s: Seq<char>) -> Colour {
    Colour::spec_of_str(split_ws(s)[1])->0
}

/// The castling rights a FEN string denotes.
pub open spec fn fen_castling(s: Seq<char>) -> CastlingRights {
    castling_of(split_ws(s)[2])
}

/// The en-passant target a FEN string denotes.
pub open spec fn fen_ep(s: Seq<char>) -> Option<Coordinate> {
    ep_of(split_ws(s)[3])
}

/// The half-move clock a FEN string denotes.
pub open spec fn fen_half(s: Seq<char>) -> int {
    digits_val(split_ws(s)[4])
}

/// The full-move number a FEN string denotes.
pub open spec fn fen_full(s: Seq<char>) -> int {
    digits_val(split_ws(s)[5])
}

/// Which error a rejected FEN string is reported with: the first
/// failing field in parsing order decides, fields being checked in
/// the order placement presence, colour, castling rights, en passant,
/// the two counters, a trailing-field check, and the placement
/// content last.
pub open spec fn fen_err_matches(s: Seq<char>, e: BoardError) -> bool {
    let fs = split_ws(s);
    if fs.len() == 0 {
        e is FenError
    } else if fs.len() == 1 {
        e is FenError
    } else if Colour::spec_of_str(fs[1]) is None {
        e == BoardError::ColourError
    } else if fs.len() == 2 {
        e is FenError
    } else if !castling_ok(fs[2]) {
        e == BoardError::CastlingRightsError
    } else if fs.len() == 3 {
        e is FenError
    } else if !ep_ok(fs[3]) {
        if crate::move_logic::coord_err_is_parse_int(fs[3]) {
            e == BoardError::ParseInt
        } else {
            e is CoordinateError
        }
    } else if fs.len() == 4 {
        e is FenError
    } else if !int_ok(fs[4]) {
        e == BoardError::ParseInt
    } else if fs.len() == 5 {
        e is FenError
    } else if !int_ok(fs[5]) {
        e == BoardError::ParseInt
    } else if fs.len() > 6 {
        e is FenError
    } else if split_slash(fs[0]).len() != 8 {
        e is FenError
    } else if placement_err_piece_from(split_slash(fs[0]), 0) {
        e == BoardError::PieceError
    } else {
        e is FenError
    }
}

impl Board {
    /// Construct a board from a FEN string: six whitespace-separated
    /// fields in order piece placement, side to move, castling
    /// rights, en-passant target, half-move clock and full-move
    /// number; any token beyond the sixth is an error.
    pub fn new_from_fen(fen: &str) -> (r: Result<Board, BoardError>)
        ensures
            r is Ok <==> fen_ok(fen@),
            r is Ok ==> r->Ok_0.wf() && r->Ok_0.squares@ == fen_squares(fen@)
                && r->Ok_0.active_colour == fen_colour(fen@) && r->Ok_0.castling_rights
                == fen_castling(fen@) && r->Ok_0.en_passant_target_square == fen_ep(fen@)
                && r->Ok_0.half_move_clock as int == fen_half(fen@)
                && r->Ok_0.full_move_number as int == fen_full(fen@),
            r is Err ==> fen_err_matches(fen@, r->Err_0),
    {
        let n = fen.unicode_len();
        let ghost fs = split_ws(fen@);
        // slice the six fields out of the string
        let (s0, e0) = next_token(fen, 0);
        proof {
            lemma_split_step(fen@, 0);
        }
        if s0 >= n {
            return Err(BoardError::FenError(String::from_str("no piece data found")));
        }
        let ghost rest1 = split_ws_from(fen@, e0 as int);
        let (s1, e1) = next_token(fen, e0);
        proof {
            lemma_split_step(fen@, e0 as int);
        }
        if s1 >= n {
            return Err(BoardError::FenError(String::from_str("no colour data found")));
        }
        let ghost rest2 = split_ws_from(fen@, e1 as int);
        let (s2, e2) = next_token(fen, e1);
        proof {
            lemma_split_step(fen@, e1 as int);
            assert(fs[1] == fen@.subrange(s1 as int, e1 as int));
        }
        let active_colour = match Colour::from_str(fen.substring_char(s1, e1)) {
            Ok(c) => c,
            Err(e) => {
                return Err(e);
            },
        };
        if s2 >= n {
            return Err(BoardError::FenError(String::from_str("no castling rights data found")));
        }
        let ghost rest3 = split_ws_from(fen@, e2 as int);
        let (s3, e3) = next_token(fen, e2);
        proof {
            lemma_split_step(fen@, e2 as int);
            assert(fs[2] == fen@.subrange(s2 as int, e2 as int));
        }
        let castling_rights = match CastlingRights::from_str(fen.substring_char(s2, e2)) {
            Ok(c) => c,
            Err(e) => {
                return Err(e);
            },
        };
        if s3 >= n {
            return Err(BoardError::FenError(String::from_str("no en passant target data found")));
        }
        let ghost rest4 = split_ws_from(fen@, e3 as int);
        let (s4, e4) = next_token(fen, e3);
        proof {
            lemma_split_step(fen@, e3 as int);
            assert(fs[3] == fen@.subrange(s3 as int, e3 as int));
        }
        let ep_str = fen.substring_char(s3, e3);
        let en_passant_target_square: Option<Coordinate> = if ep_str.unicode_len() == 1
            && ep_str.get_char(0) == '-' {
            None
        } else {
            match Coordinate::from_str(ep_str) {
                Ok(c) => Some(c),
                Err(e) => {
                    return Err(e);
                },
            }
        };
        if s4 >= n {
            return Err(BoardError::FenError(String::from_str("no half move clock data found")));
        }
        let ghost rest5 = split_ws_from(fen@, e4 as int);
        let (s5, e5) = next_token(fen, e4);
        proof {
            lemma_split_step(fen@, e4 as int);
            assert(fs[4] == fen@.subrange(s4 as int, e4 as int));
        }
        let half_move_clock = match parse_usize(fen.substring_char(s4, e4)) {
            Ok(v) => v,
            Err(e) => {
                return Err(e);
            },
        };
        if s5 >= n {
            return Err(BoardError::FenError(String::from_str("no full move number data found")));
        }
        let ghost rest6 = split_ws_from(fen@, e5 as int);
        let (s6, _e6) = next_token(fen, e5);
        proof {
            lemma_split_step(fen@, e5 as int);
            assert(fs[5] == fen@.subrange(s5 as int, e5 as int));
        }
        let full_move_number = match parse_usize(fen.substring_char(s5, e5)) {
            Ok(v) => v,
            Err(e) => {
                return Err(e);
            },
        };
        // the six fields must exhaust the string
        if s6 < n {
            proof {
                assert(fs.len() >= 7);
            }
            return Err(BoardError::FenError(String::from_str("too many arguments")));
        }
        proof {
            assert(fs.len() == 6);
            assert(fs[0] == fen@.subrange(s0 as int, e0 as int));
        }
        // the placement field, parsed last as the board is built
        let squares = match parse_placement(fen.substring_char(s0, e0)) {
            Ok(v) => v,
            Err(e) => {
                return Err(e);
            },
        };
        Ok(
            Board {
                squares,
                active_colour,
                castling_rights,
                en_passant_target_square,
                half_move_clock,
                full_move_number,
            },
        )
    }

    /// Export this position as a FEN string: the placement field with
    /// empty runs collapsed into digits, then side to move, castling
    /// rights, en-passant target and the two counters, separated by
    /// single spaces.
    pub fn export_fen(&self) -> (r: Result<String, BoardError>)
        requires
            self.wf(),
        ensures
            r is Ok,
            r->Ok_0@ == fen_export(*self),
    {
        let mut out = String::new();
        push_placement(&mut out, &self.squares);
        push_space(&mut out);
        match self.active_colour {
            Colour::White => {
                proof {
                    reveal_strlit("w");
                    assert("w"@ =~= seq!['w']);
                }
                out.append("w");
            },
            Colour::Black => {
                proof {
                    reveal_strlit("b");
                    assert("b"@ =~= seq!['b']);
                }
                out.append("b");
            },
        }
        push_space(&mut out);
        push_castling(&mut out, self.castling_rights);
        push_space(&mut out);
        match &self.en_passant_target_square {
            None => {
                proof {
                    reveal_strlit("-");
                    assert("-"@ =~= seq!['-']);
                }
                out.append("-");
            },
            Some(coord) => {
                push_file_char(&mut out, coord.file);
                push_digit(&mut out, coord.rank);
            },
        }
        push_space(&mut out);
        push_decimal(&mut out, self.half_move_clock);
        push_space(&mut out);
        push_decimal(&mut out, self.full_move_number);
        proof {
            assert(out@ =~= fen_export(*self));
        }
        Ok(out)
    }

    /// Construct a board from an owned FEN string.
    pub fn new(fen: String) -> (r: Result<Board, BoardError>)
        ensures
            r is Ok <==> fen_ok(fen@),
            r is Ok ==> r->Ok_0.wf() && r->Ok_0.squares@ == fen_squares(fen@)
                && r->Ok_0.active_colour == fen_colour(fen@) && r->Ok_0.castling_rights
                == fen_castling(fen@) && r->Ok_0.en_passant_target_square == fen_ep(fen@)
                && r->Ok_0.half_move_clock as int == fen_half(fen@)
                && r->Ok_0.full_move_number as int == fen_full(fen@),
            r is Err ==> fen_err_matches(fen@, r->Err_0),
    {
        Self::new_from_fen(fen.as_str())
    }
}

// ------------------------------------------------------------------
// Exporting: the spec of the emitted text.
// ------------------------------------------------------------------

/// The character of a decimal digit.
pub open spec fn digit_char(n: int) -> char {
    if n == 0 {
        '0'
    } else if n == 1 {
        '1'
    } else if n == 2 {
        '2'
    } else if n == 3 {
        '3'
    } else if n == 4 {
        '4'
    } else if n == 5 {
        '5'
    } else if n == 6 {
        '6'
    } else if n == 7 {
        '7'
    } else if n == 8 {
        '8'
    } else {
        '9'
    }
}

/// Collapse a rank's squares into FEN text, from slot `i` on, with
/// `run` empty squares pending: consecutive empty squares become one
/// digit, emitted before the next piece letter or at the end.
pub open spec fn collapse_from(seg: Seq<Option<Piece>>, i: int, run: int) -> Seq<char>
    decreases seg.len() - i,
{
    if i < 0 || i >= seg.len() {
        if run > 0 {
            seq![digit_char(run)]
        } else {
            Seq::empty()
        }
    } else {
        match seg[i] {
            None => collapse_from(seg, i + 1, run + 1),
            Some(p) => (if run > 0 {
                seq![digit_char(run)]
            } else {
                Seq::empty()
            }) + seq![piece_char(p)] + collapse_from(seg, i + 1, 0),
        }
    }
}

/// The FEN text of one rank of squares.
pub open spec fn collapse(seg: Seq<Option<Piece>>) -> Seq<char> {
    collapse_from(seg, 0, 0)
}

/// The eight squares of rank `r` (0 is rank 1).
pub open spec fn rank_seg(sq: Seq<Option<Piece>>, r: int) -> Seq<Option<Piece>> {
    sq.subrange(8 * r, 8 * r + 8)
}

/// The placement text of ranks `r` down to 0, '/'-separated: rank 8
/// is listed first.
pub open spec fn placement_export_from(sq: Seq<Option<Piece>>, r: int) -> Seq<char>
    decreases r,
{
    if r <= 0 {
        collapse(rank_seg(sq, 0))
    } else {
        collapse(rank_seg(sq, r)) + seq!['/'] + placement_export_from(sq, r - 1)
    }
}

/// The whole placement field of a board's squares.
pub open spec fn placement_export(sq: Seq<Option<Piece>>) -> Seq<char> {
    placement_export_from(sq, 7)
}

/// The decimal text of a non-negative number, no leading zeros.
pub open spec fn dec_seq(n: int) -> Seq<char>
    decreases n,
{
    if n < 10 {
        seq![digit_char(n)]
    } else {
        dec_seq(n / 10) + seq![digit_char(n % 10)]
    }
}

/// The castling-rights field text: the rights that stand, in the
/// order K, Q, k, q; empty when none stand.
pub open spec fn castling_seq(c: CastlingRights) -> Seq<char> {
    (if c.k_w {
        seq!['K']
    } else {
        Seq::empty()
    }) + (if c.q_w {
        seq!['Q']
    } else {
        Seq::empty()
    }) + (if c.k_b {
        seq!['k']
    } else {
        Seq::empty()
    }) + (if c.q_b {
        seq!['q']
    } else {
        Seq::empty()
    })
}

/// The en-passant field text: "-" or the target square.
pub open spec fn ep_seq(e: Option<Coordinate>) -> Seq<char> {
    match e {
        None => seq!['-'],
        Some(c) => seq![c.file, digit_char(c.rank as int)],
    }
}

/// The full FEN text of a board: six fields separated by single
/// spaces.
pub open spec fn fen_export(b: Board) -> Seq<char> {
    placement_export(b.squares@) + seq![' '] + seq![b.active_colour.fen_char()] + seq![' ']
        + castling_seq(b.castling_rights) + seq![' '] + ep_seq(b.en_passant_target_square) + seq![
        ' ',
    ] + dec_seq(b.half_move_clock as int) + seq![' '] + dec_seq(b.full_move_number as int)
}

// ------------------------------------------------------------------
// Exporting: the emitters.
// ------------------------------------------------------------------

/// Append one space.
fn push_space(out: &mut String)
    ensures
        final(out)@ == old(out)@ + seq![' '],
{
    proof {
        reveal_strlit(" ");
        assert(" "@ =~= seq![' ']);
    }
    out.append(" ");
}

/// Append one decimal digit character.
fn push_digit(out: &mut String, d: usize)
    requires
        d < 10,
    ensures
        final(out)@ == old(out)@ + seq![digit_char(d as int)],
{
    match d {
        0 => {
            proof {
                reveal_strlit("0");
                assert("0"@ =~= seq!['0']);
            }
            out.append("0");
        },
        1 => {
            proof {
                reveal_strlit("1");
                assert("1"@ =~= seq!['1']);
            }
            out.append("1");
        },
        2 => {
            proof {
                reveal_strlit("2");
                assert("2"@ =~= seq!['2']);
            }
            out.append("2");
        },
        3 => {
            proof {
                reveal_strlit("3");
                assert("3"@ =~= seq!['3']);
            }
            out.append("3");
        },
        4 => {
            proof {
                reveal_strlit("4");
                assert("4"@ =~= seq!['4']);
            }
            out.append("4");
        },
        5 => {
            proof {
                reveal_strlit("5");
                assert("5"@ =~= seq!['5']);
            }
            out.append("5");
        },
        6 => {
            proof {
                reveal_strlit("6");
                assert("6"@ =~= seq!['6']);
            }
            out.append("6");
        },
        7 => {
            proof {
                reveal_strlit("7");
                assert("7"@ =~= seq!['7']);
            }
            out.append("7");
        },
        8 => {
            proof {
                reveal_strlit("8");
                assert("8"@ =~= seq!['8']);
            }
            out.append("8");
        },
        _ => {
            proof {
                reveal_strlit("9");
                assert("9"@ =~= seq!['9']);
            }
            out.append("9");
        },
    }
}

/// Append a number in decimal, most significant digit first.
fn push_decimal(out: &mut String, n: usize)
    ensures
        final(out)@ == old(out)@ + dec_seq(n as int),
    decreases n,
{
    if n >= 10 {
        push_decimal(out, n / 10);
        push_digit(out, n % 10);
    } else {
        push_digit(out, n);
    }
}

/// Append a file letter a-h.
fn push_file_char(out: &mut String, c: char)
    requires
        crate::coordinate::is_file_letter(c),
    ensures
        final(out)@ == old(out)@ + seq![c],
{
    if c == 'a' {
        proof {
            reveal_strlit("a");
            assert("a"@ =~= seq!['a']);
        }
        out.append("a");
    } else if c == 'b' {
        proof {
            reveal_strlit("b");
            assert("b"@ =~= seq!['b']);
        }
        out.append("b");
    } else if c == 'c' {
        proof {
            reveal_strlit("c");
            assert("c"@ =~= seq!['c']);
        }
        out.append("c");
    } else if c == 'd' {
        proof {
            reveal_strlit("d");
            assert("d"@ =~= seq!['d']);
        }
        out.append("d");
    } else if c == 'e' {
        proof {
            reveal_strlit("e");
            assert("e"@ =~= seq!['e']);
        }
        out.append("e");
    } else if c == 'f' {
        proof {
            reveal_strlit("f");
            assert("f"@ =~= seq!['f']);
        }
        out.append("f");
    } else if c == 'g' {
        proof {
            reveal_strlit("g");
            assert("g"@ =~= seq!['g']);
        }
        out.append("g");
    } else {
        proof {
            reveal_strlit("h");
            assert(c == 'h');
            assert("h"@ =~= seq!['h']);
        }
        out.append("h");
    }
}

/// Append a piece's FEN letter.
fn push_piece_char(out: &mut String, p: Piece)
    ensures
        final(out)@ == old(out)@ + seq![piece_char(p)],
{
    match p.colour {
        Colour::White => match p.piece_type {
            PieceType::Pawn => {
                proof {
                    reveal_strlit("P");
                    assert("P"@ =~= seq!['P']);
                }
                out.append("P");
            },
            PieceType::Bishop => {
                proof {
                    reveal_strlit("B");
                    assert("B"@ =~= seq!['B']);
                }
                out.append("B");
            },
            PieceType::Knight => {
                proof {
                    reveal_strlit("N");
                    assert("N"@ =~= seq!['N']);
                }
                out.append("N");
            },
            PieceType::Rook => {
                proof {
                    reveal_strlit("R");
                    assert("R"@ =~= seq!['R']);
                }
                out.append("R");
            },
            PieceType::Queen => {
                proof {
                    reveal_strlit("Q");
                    assert("Q"@ =~= seq!['Q']);
                }
                out.append("Q");
            },
            PieceType::King => {
                proof {
                    reveal_strlit("K");
                    assert("K"@ =~= seq!['K']);
                }
                out.append("K");
            },
        },
        Colour::Black => match p.piece_type {
            PieceType::Pawn => {
                proof {
                    reveal_strlit("p");
                    assert("p"@ =~= seq!['p']);
                }
                out.append("p");
            },
            PieceType::Bishop => {
                proof {
                    reveal_strlit("b");
                    assert("b"@ =~= seq!['b']);
                }
                out.append("b");
            },
            PieceType::Knight => {
                proof {
                    reveal_strlit("n");
                    assert("n"@ =~= seq!['n']);
                }
                out.append("n");
            },
            PieceType::Rook => {
                proof {
                    reveal_strlit("r");
                    assert("r"@ =~= seq!['r']);
                }
                out.append("r");
            },
            PieceType::Queen => {
                proof {
                    reveal_strlit("q");
                    assert("q"@ =~= seq!['q']);
                }
                out.append("q");
            },
            PieceType::King => {
                proof {
                    reveal_strlit("k");
                    assert("k"@ =~= seq!['k']);
                }
                out.append("k");
            },
        },
    }
}

/// Append the castling-rights field, in the order K, Q, k, q.
fn push_castling(out: &mut String, c: CastlingRights)
    ensures
        final(out)@ == old(out)@ + castling_seq(c),
{
    if c.k_w {
        proof {
            reveal_strlit("K");
            assert("K"@ =~= seq!['K']);
        }
        out.append("K");
    }
    if c.q_w {
        proof {
            reveal_strlit("Q");
            assert("Q"@ =~= seq!['Q']);
        }
        out.append("Q");
    }
    if c.k_b {
        proof {
            reveal_strlit("k");
            assert("k"@ =~= seq!['k']);
        }
        out.append("k");
    }
    if c.q_b {
        proof {
            reveal_strlit("q");
            assert("q"@ =~= seq!['q']);
        }
        out.append("q");
    }
    proof {
        assert(final(out)@ =~= old(out)@ + castling_seq(c));
    }
}

/// Append the collapsed text of rank `r` of the squares.
fn push_rank(out: &mut String, squares: &Vec<Option<Piece>>, r: usize)
    requires
        squares@.len() == 64,
        r < 8,
    ensures
        final(out)@ == old(out)@ + collapse(rank_seg(squares@, r as int)),
{
    let ghost seg = rank_seg(squares@, r as int);
    let ghost base = out@;
    let mut run: usize = 0;
    let mut f: usize = 0;
    while f < 8
        invariant
            f <= 8,
            run <= f,
            r < 8,
            squares@.len() == 64,
            seg == rank_seg(squares@, r as int),
            out@ + collapse_from(seg, f as int, run as int) == base + collapse(seg),
        decreases 8 - f,
    {
        proof {
            assert(seg[f as int] == squares@[8 * (r as int) + f as int]);
        }
        match squares[8 * r + f] {
            None => {
                run += 1;
            },
            Some(p) => {
                let ghost mid = out@;
                if run > 0 {
                    push_digit(out, run);
                }
                push_piece_char(out, p);
                run = 0;
                proof {
                    assert(out@ + collapse_from(seg, f as int + 1, 0) =~= base + collapse(seg));
                }
            },
        }
        f += 1;
    }
    if run > 0 {
        push_digit(out, run);
    }
    proof {
        assert(out@ =~= base + collapse(seg));
    }
}

/// Append the whole placement field: ranks 8 down to 1, separated by
/// '/'.
fn push_placement(out: &mut String, squares: &Vec<Option<Piece>>)
    requires
        squares@.len() == 64,
    ensures
        final(out)@ == old(out)@ + placement_export(squares@),
{
    let ghost base = out@;
    push_rank(out, squares, 7);
    let mut k: usize = 1;
    while k < 8
        invariant
            1 <= k <= 8,
            squares@.len() == 64,
            out@ + (if k < 8 {
                seq!['/'] + placement_export_from(squares@, 7 - k as int)
            } else {
                Seq::<char>::empty()
            }) == base + placement_export(squares@),
        decreases 8 - k,
    {
        proof {
            reveal_strlit("/");
            assert("/"@ =~= seq!['/']);
        }
        out.append("/");
        push_rank(out, squares, 7 - k);
        proof {
            assert(out@ + (if k + 1 < 8 {
                seq!['/'] + placement_export_from(squares@, 7 - (k + 1))
            } else {
                Seq::<char>::empty()
            }) =~= base + placement_export(squares@));
        }
        k += 1;
    }
    proof {
        assert(out@ =~= base + placement_export(squares@));
    }
}

// ------------------------------------------------------------------
// The round-trip law: export reproduces every canonical string the
// parser accepts.
// ------------------------------------------------------------------

/// Encoding a digit's value gives the digit back.
proof fn lemma_digit_char_value(c: char)
    requires
        is_ascii_digit(c),
    ensures
        digit_char(digit_value(c)) == c,
{
}

/// A counter token is canonical when it carries no leading zero.
pub open spec fn num_canonical(t: Seq<char>) -> bool {
    t.len() > 1 ==> t[0] != '0'
}

/// A digit string without a leading zero has a positive value once it
/// is longer than one digit.
proof fn lemma_digits_val_lower(t: Seq<char>)
    requires
        t.len() >= 1,
        forall|j: int| 0 <= j < t.len() ==> is_ascii_digit(#[trigger] t[j]),
        t[0] != '0',
    ensures
        t.len() == 1 ==> digits_val(t) == digit_value(t[0]),
        t.len() >= 2 ==> digits_val(t) >= 10,
    decreases t.len(),
{
    if t.len() == 1 {
        assert(t.drop_last().len() == 0);
        assert(digits_val(t.drop_last()) == 0);
        assert(t.last() == t[0]);
    } else {
        let p = t.drop_last();
        assert(forall|j: int| 0 <= j < p.len() ==> is_ascii_digit(#[trigger] p[j]));
        lemma_digits_val_lower(p);
        assert(digit_value(p[0]) >= 1);
        assert(digits_val(p) >= 1);
        assert(digit_value(t.last()) >= 0);
    }
}

/// Printing a parsed counter reproduces its token exactly, leading
/// zeros excepted.
proof fn lemma_counter_round_trip(t: Seq<char>)
    requires
        int_ok(t),
        num_canonical(t),
    ensures
        dec_seq(digits_val(t)) == t,
    decreases t.len(),
{
    if t.len() == 1 {
        lemma_digit_char_value(t[0]);
        assert(dec_seq(digits_val(t)) =~= t);
    } else {
        let p = t.drop_last();
        let d = digit_value(t.last());
        let v = digits_val(t);
        assert(forall|j: int| 0 <= j < p.len() ==> is_ascii_digit(#[trigger] p[j]));
        lemma_digits_val_lower(t);
        assert(v >= 10);
        lemma_digits_val_nonneg(p);
        assert(v == digits_val(p) * 10 + d);
        assert(v / 10 == digits_val(p) && v % 10 == d) by {
            assert(0 <= d < 10);
        };
        assert(int_ok(p)) by {
            lemma_digits_val_prefix(t, t.len() - 1);
            assert(t.subrange(0, t.len() - 1) =~= p);
        };
        lemma_counter_round_trip(p);
        lemma_digit_char_value(t.last());
        assert(dec_seq(v) =~= t);
    }
}

/// Printing a parsed en-passant field reproduces its token exactly.
proof fn lemma_ep_round_trip(t: Seq<char>)
    requires
        ep_ok(t),
    ensures
        ep_seq(ep_of(t)) == t,
{
    if is_dash(t) {
        assert(ep_seq(ep_of(t)) =~= t);
    } else {
        let c = Coordinate::spec_of_str(t)->0;
        lemma_digit_char_value(t[1]);
        assert(ep_seq(Some(c)) =~= t);
    }
}

/// The canonical rank of a castling letter: K before Q before k
/// before q.
pub open spec fn cr_order(c: char) -> int {
    if c == 'K' {
        0
    } else if c == 'Q' {
        1
    } else if c == 'k' {
        2
    } else if c == 'q' {
        3
    } else {
        4
    }
}

/// A castling token is canonical when its letters appear in strictly
/// increasing K, Q, k, q order (so without repeats).
pub open spec fn castling_canonical(t: Seq<char>) -> bool {
    forall|j: int| 0 <= j && j + 1 < t.len() ==> cr_order(#[trigger] t[j]) < cr_order(t[j + 1])
}

/// In a canonical token every later letter ranks strictly above the
/// first.
proof fn lemma_sorted_above_head(t: Seq<char>, j: int)
    requires
        castling_canonical(t),
        1 <= j < t.len(),
    ensures
        cr_order(t[0]) < cr_order(t[j]),
    decreases j,
{
    if j > 1 {
        lemma_sorted_above_head(t, j - 1);
    }
}

/// Two canonical castling tokens with the same letters are the same
/// token.
#[verifier::rlimit(100)]
proof fn lemma_sorted_members_equal(a: Seq<char>, b: Seq<char>)
    requires
        forall|j: int| 0 <= j < a.len() ==> is_castling_char(#[trigger] a[j]),
        forall|j: int| 0 <= j < b.len() ==> is_castling_char(#[trigger] b[j]),
        castling_canonical(a),
        castling_canonical(b),
        forall|x: char| a.contains(x) <==> b.contains(x),
    ensures
        a == b,
    decreases a.len(),
{
    if a.len() == 0 {
        if b.len() > 0 {
            assert(b.contains(b[0]));
            assert(a.contains(b[0]));
            assert(false);
        }
        assert(a =~= b);
    } else if b.len() == 0 {
        assert(a.contains(a[0]));
        assert(b.contains(a[0]));
        assert(false);
    } else {
        // the heads carry the least rank on each side, and the sides
        // hold the same letters: the heads are equal
        assert(a.contains(a[0]));
        assert(b.contains(a[0]));
        let jb = choose|j: int| 0 <= j < b.len() && b[j] == a[0];
        if jb > 0 {
            lemma_sorted_above_head(b, jb);
        }
        assert(b.contains(b[0]));
        assert(a.contains(b[0]));
        let ja = choose|j: int| 0 <= j < a.len() && a[j] == b[0];
        if ja > 0 {
            lemma_sorted_above_head(a, ja);
        }
        assert(cr_order(a[0]) == cr_order(b[0]));
        assert(a[0] == b[0]);
        // the tails again satisfy the hypotheses
        let at = a.drop_first();
        let bt = b.drop_first();
        assert(forall|j: int| 0 <= j < at.len() ==> is_castling_char(#[trigger] at[j]));
        assert(forall|j: int| 0 <= j < bt.len() ==> is_castling_char(#[trigger] bt[j]));
        assert(castling_canonical(at)) by {
            assert(forall|j: int|
                0 <= j && j + 1 < at.len() ==> cr_order(#[trigger] at[j]) < cr_order(at[j + 1]));
        };
        assert(castling_canonical(bt)) by {
            assert(forall|j: int|
                0 <= j && j + 1 < bt.len() ==> cr_order(#[trigger] bt[j]) < cr_order(bt[j + 1]));
        };
        assert forall|x: char| at.contains(x) implies bt.contains(x) by {
            let j = choose|j: int| 0 <= j < at.len() && at[j] == x;
            assert(a[j + 1] == x);
            assert(a.contains(x));
            lemma_sorted_above_head(a, j + 1);
            assert(cr_order(x) > cr_order(a[0]));
            let k = choose|k: int| 0 <= k < b.len() && b[k] == x;
            assert(k > 0) by {
                if k == 0 {
                    assert(x == b[0]);
                }
            };
            assert(bt[k - 1] == x);
        };
        assert forall|x: char| bt.contains(x) implies at.contains(x) by {
            let j = choose|j: int| 0 <= j < bt.len() && bt[j] == x;
            assert(b[j + 1] == x);
            assert(b.contains(x));
            lemma_sorted_above_head(b, j + 1);
            assert(cr_order(x) > cr_order(b[0]));
            let k = choose|k: int| 0 <= k < a.len() && a[k] == x;
            assert(k > 0) by {
                if k == 0 {
                    assert(x == a[0]);
                }
            };
            assert(at[k - 1] == x);
        };
        lemma_sorted_members_equal(at, bt);
        assert(a =~= seq![a[0]] + at);
        assert(b =~= seq![b[0]] + bt);
    }
}

/// What the castling-field text of given flags holds: canonical
/// order, castling letters only, and one letter per standing right.
proof fn lemma_castling_seq_props(f: CastlingRights)
    ensures
        castling_canonical(castling_seq(f)),
        forall|j: int|
            0 <= j < castling_seq(f).len() ==> is_castling_char(#[trigger] castling_seq(f)[j]),
        castling_seq(f).contains('K') <==> f.k_w,
        castling_seq(f).contains('Q') <==> f.q_w,
        castling_seq(f).contains('k') <==> f.k_b,
        castling_seq(f).contains('q') <==> f.q_b,
{
    let b = castling_seq(f);
    if f.k_w {
        if f.q_w {
            if f.k_b {
                if f.q_b {
                    assert(b =~= seq!['K', 'Q', 'k', 'q']);
                    assert(b[0] == 'K' && b[1] == 'Q' && b[2] == 'k' && b[3] == 'q');
                    assert forall|x: char| b.contains(x) implies (x == 'K' || x == 'Q' || x == 'k' || x == 'q') by {
                        let j = choose|j: int| 0 <= j < b.len() && b[j] == x;
                    };
                } else {
                    assert(b =~= seq!['K', 'Q', 'k']);
                    assert(b[0] == 'K' && b[1] == 'Q' && b[2] == 'k');
                    assert forall|x: char| b.contains(x) implies (x == 'K' || x == 'Q' || x == 'k') by {
                        let j = choose|j: int| 0 <= j < b.len() && b[j] == x;
                    };
                }
            } else {
                if f.q_b {
                    assert(b =~= seq!['K', 'Q', 'q']);
                    assert(b[0] == 'K' && b[1] == 'Q' && b[2] == 'q');
                    assert forall|x: char| b.contains(x) implies (x == 'K' || x == 'Q' || x == 'q') by {
                        let j = choose|j: int| 0 <= j < b.len() && b[j] == x;
                    };
                } else {
                    assert(b =~= seq!['K', 'Q']);
                    assert(b[0] == 'K' && b[1] == 'Q');
                    assert forall|x: char| b.contains(x) implies (x == 'K' || x == 'Q') by {
                        let j = choose|j: int| 0 <= j < b.len() && b[j] == x;
                    };
                }
            }
        } else {
            if f.k_b {
                if f.q_b {
                    assert(b =~= seq!['K', 'k', 'q']);
                    assert(b[0] == 'K' && b[1] == 'k' && b[2] == 'q');
                    assert forall|x: char| b.contains(x) implies (x == 'K' || x == 'k' || x == 'q') by {
                        let j = choose|j: int| 0 <= j < b.len() && b[j] == x;
                    };
                } else {
                    assert(b =~= seq!['K', 'k']);
                    assert(b[0] == 'K' && b[1] == 'k');
                    assert forall|x: char| b.contains(x) implies (x == 'K' || x == 'k') by {
                        let j = choose|j: int| 0 <= j < b.len() && b[j] == x;
                    };
                }
            } else {
                if f.q_b {
                    assert(b =~= seq!['K', 'q']);
                    assert(b[0] == 'K' && b[1] == 'q');
                    assert forall|x: char| b.contains(x) implies (x == 'K' || x == 'q') by {
                        let j = choose|j: int| 0 <= j < b.len() && b[j] == x;
                    };
                } else {
                    assert(b =~= seq!['K']);
                    assert(b[0] == 'K');
                    assert forall|x: char| b.contains(x) implies (x == 'K') by {
                        let j = choose|j: int| 0 <= j < b.len() && b[j] == x;
                    };
                }
            }
        }
    } else {
        if f.q_w {
            if f.k_b {
                if f.q_b {
                    assert(b =~= seq!['Q', 'k', 'q']);
                    assert(b[0] == 'Q' && b[1] == 'k' && b[2] == 'q');
                    assert forall|x: char| b.contains(x) implies (x == 'Q' || x == 'k' || x == 'q') by {
                        let j = choose|j: int| 0 <= j < b.len() && b[j] == x;
                    };
                } else {
                    assert(b =~= seq!['Q', 'k']);
                    assert(b[0] == 'Q' && b[1] == 'k');
                    assert forall|x: char| b.contains(x) implies (x == 'Q' || x == 'k') by {
                        let j = choose|j: int| 0 <= j < b.len() && b[j] == x;
                    };
                }
            } else {
                if f.q_b {
                    assert(b =~= seq!['Q', 'q']);
                    assert(b[0] == 'Q' && b[1] == 'q');
                    assert forall|x: char| b.contains(x) implies (x == 'Q' || x == 'q') by {
                        let j = choose|j: int| 0 <= j < b.len() && b[j] == x;
                    };
                } else {
                    assert(b =~= seq!['Q']);
                    assert(b[0] == 'Q');
                    assert forall|x: char| b.contains(x) implies (x == 'Q') by {
                        let j = choose|j: int| 0 <= j < b.len() && b[j] == x;
                    };
                }
            }
        } else {
            if f.k_b {
                if f.q_b {
                    assert(b =~= seq!['k', 'q']);
                    assert(b[0] == 'k' && b[1] == 'q');
                    assert forall|x: char| b.contains(x) implies (x == 'k' || x == 'q') by {
                        let j = choose|j: int| 0 <= j < b.len() && b[j] == x;
                    };
                } else {
                    assert(b =~= seq!['k']);
                    assert(b[0] == 'k');
                    assert forall|x: char| b.contains(x) implies (x == 'k') by {
                        let j = choose|j: int| 0 <= j < b.len() && b[j] == x;
                    };
                }
            } else {
                if f.q_b {
                    assert(b =~= seq!['q']);
                    assert(b[0] == 'q');
                    assert forall|x: char| b.contains(x) implies (x == 'q') by {
                        let j = choose|j: int| 0 <= j < b.len() && b[j] == x;
                    };
                } else {
                    assert(b =~= Seq::<char>::empty());
                    assert forall|x: char| b.contains(x) implies false by {
                        let j = choose|j: int| 0 <= j < b.len() && b[j] == x;
                    };
                }
            }
        }
    }
}

/// Printing parsed castling rights reproduces their token exactly,
/// out-of-order or repeated letters excepted.
proof fn lemma_castling_round_trip(t: Seq<char>)
    requires
        castling_ok(t),
        castling_canonical(t),
    ensures
        castling_seq(castling_of(t)) == t,
{
    let f = castling_of(t);
    lemma_castling_seq_props(f);
    let b = castling_seq(f);
    assert forall|x: char| b.contains(x) implies t.contains(x) by {
        let j = choose|j: int| 0 <= j < b.len() && b[j] == x;
        assert(is_castling_char(x));
    };
    assert forall|x: char| t.contains(x) implies b.contains(x) by {
        let j = choose|j: int| 0 <= j < t.len() && t[j] == x;
        assert(is_castling_char(x));
    };
    lemma_sorted_members_equal(b, t);
}

/// Collapsing pending empty squares walks over a run of empties by
/// growing the run counter.
proof fn lemma_collapse_skip_nones(seg: Seq<Option<Piece>>, i: int, run: int, m: int)
    requires
        0 <= i,
        0 <= m,
        i + m <= seg.len(),
        forall|x: int| i <= x < i + m ==> seg[x] is None,
    ensures
        collapse_from(seg, i, run) == collapse_from(seg, i + m, run + m),
    decreases m,
{
    if m > 0 {
        lemma_collapse_skip_nones(seg, i + 1, run + 1, m - 1);
    }
}

/// At a piece or at the end, a pending run is flushed as one digit in
/// front of the rest.
proof fn lemma_collapse_flush(seg: Seq<Option<Piece>>, j: int, run: int)
    requires
        0 <= j <= seg.len(),
        run > 0,
        j == seg.len() || seg[j] is Some,
    ensures
        collapse_from(seg, j, run) == seq![digit_char(run)] + collapse_from(seg, j, 0),
{
    if j == seg.len() {
        assert(collapse_from(seg, j, run) =~= seq![digit_char(run)] + collapse_from(seg, j, 0));
    } else {
        assert(collapse_from(seg, j, run) =~= seq![digit_char(run)] + collapse_from(seg, j, 0));
    }
}

/// A rank string is canonical when no digit is '0' and no two digits
/// stand next to each other: empty runs are written maximally.
pub open spec fn rank_canonical(rs: Seq<char>) -> bool {
    (forall|j: int|
        0 <= j < rs.len() && is_ascii_digit(#[trigger] rs[j]) ==> digit_value(rs[j]) >= 1)
        && (forall|j: int|
        0 <= j && j + 1 < rs.len() && is_ascii_digit(#[trigger] rs[j]) ==> !is_ascii_digit(
            rs[j + 1],
        ))
}

/// Collapsing the expansion of a canonical rank string gives the
/// string back.
proof fn lemma_collapse_expand(rs: Seq<char>, seg: Seq<Option<Piece>>, i: int)
    requires
        rank_chars_ok(rs),
        rank_canonical(rs),
        0 <= i <= seg.len(),
        seg.subrange(i, seg.len() as int) == expand_rank(rs),
    ensures
        collapse_from(seg, i, 0) == rs,
    decreases rs.len(),
{
    if rs.len() == 0 {
        assert(collapse_from(seg, i, 0) =~= rs);
    } else {
        let c = rs[0];
        let rest = rs.drop_first();
        assert(rank_char_ok(c));
        assert(rank_chars_ok(rest)) by {
            assert(forall|j: int| 0 <= j < rest.len() ==> rank_char_ok(#[trigger] rest[j]));
        };
        assert(rank_canonical(rest)) by {
            assert(forall|j: int|
                0 <= j < rest.len() && is_ascii_digit(#[trigger] rest[j]) ==> digit_value(rest[j])
                    >= 1);
            assert(forall|j: int|
                0 <= j && j + 1 < rest.len() && is_ascii_digit(#[trigger] rest[j])
                    ==> !is_ascii_digit(rest[j + 1]));
        };
        assert(expand_rank(rs) == char_expansion(c) + expand_rank(rest));
        if char_piece(c) is Some {
            let p = char_piece(c)->0;
            assert(char_expansion(c) =~= seq![Some(p)]);
            assert(seg[i] == Some(p)) by {
                assert(expand_rank(rs)[0] == char_expansion(c)[0]);
                assert(seg.subrange(i, seg.len() as int)[0] == expand_rank(rs)[0]);
            };
            assert(seg.subrange(i + 1, seg.len() as int) =~= expand_rank(rest)) by {
                assert(forall|k: int|
                    0 <= k < seg.len() - i - 1 ==> #[trigger] seg.subrange(
                        i + 1,
                        seg.len() as int,
                    )[k] == seg.subrange(i, seg.len() as int)[k + 1]);
            };
            lemma_collapse_expand(rest, seg, i + 1);
            crate::pieces::lemma_piece_char_bijective();
            assert(piece_char(p) == c);
            assert(collapse_from(seg, i, 0) =~= rs);
        } else {
            let d = digit_value(c);
            assert(is_ascii_digit(c) && 1 <= d <= 9);
            assert(char_expansion(c) =~= Seq::new(d as nat, |j: int| None::<Piece>));
            assert(i + d <= seg.len()) by {
                assert(expand_rank(rs).len() >= d);
            };
            assert(forall|x: int| i <= x < i + d ==> seg[x] is None) by {
                assert(forall|x: int|
                    i <= x < i + d ==> #[trigger] seg[x] == seg.subrange(i, seg.len() as int)[x
                        - i]);
            };
            lemma_collapse_skip_nones(seg, i, 0, d);
            assert(seg.subrange(i + d, seg.len() as int) =~= expand_rank(rest)) by {
                assert(char_expansion(c).len() == d);
                assert(forall|k: int|
                    0 <= k < expand_rank(rest).len() ==> #[trigger] expand_rank(rest)[k]
                        == expand_rank(rs)[k + d]);
                assert(forall|k: int|
                    0 <= k < seg.len() - i - d ==> #[trigger] seg.subrange(
                        i + d,
                        seg.len() as int,
                    )[k] == seg.subrange(i, seg.len() as int)[k + d]);
            };
            lemma_digit_char_value(c);
            if rest.len() == 0 {
                assert(i + d == seg.len()) by {
                    assert(expand_rank(rest).len() == 0);
                };
                assert(collapse_from(seg, i + d, d) =~= seq![c]);
                assert(collapse_from(seg, i, 0) =~= rs);
            } else {
                assert(!is_ascii_digit(rest[0])) by {
                    assert(rest[0] == rs[1]);
                };
                assert(char_piece(rest[0]) is Some);
                assert(seg[i + d] is Some) by {
                    assert(expand_rank(rest)[0] == char_expansion(rest[0])[0]);
                    assert(char_expansion(rest[0])[0] is Some);
                    assert(seg.subrange(i + d, seg.len() as int)[0] == expand_rank(rest)[0]);
                };
                lemma_collapse_flush(seg, i + d, d);
                lemma_collapse_expand(rest, seg, i + d);
                assert(collapse_from(seg, i, 0) =~= rs);
            }
        }
    }
}

/// The squares of the ranks from `x` up total eight per rank.
proof fn lemma_ps_len(parts: Seq<Seq<char>>, x: int)
    requires
        0 <= x <= 8,
        placement_ok(parts),
    ensures
        placement_squares_from(parts, x).len() == 8 * (8 - x),
    decreases 8 - x,
{
    if x < 8 {
        lemma_ps_len(parts, x + 1);
        assert(rank_ok(parts[7 - x]));
    }
}

/// Rank `r` of the assembled board is the expansion of the part
/// listed at position 7 - r.
proof fn lemma_rank_seg_from(parts: Seq<Seq<char>>, x: int, r: int)
    requires
        0 <= x <= r < 8,
        placement_ok(parts),
    ensures
        placement_squares_from(parts, x).subrange(8 * (r - x), 8 * (r - x) + 8) == expand_rank(
            parts[7 - r],
        ),
    decreases r - x,
{
    let ps = placement_squares_from(parts, x);
    let head = expand_rank(parts[7 - x]);
    let tail = placement_squares_from(parts, x + 1);
    assert(rank_ok(parts[7 - x]));
    assert(head.len() == 8);
    lemma_ps_len(parts, x + 1);
    if r == x {
        assert(ps.subrange(0, 8) =~= head);
    } else {
        lemma_rank_seg_from(parts, x + 1, r);
        assert(ps.subrange(8 * (r - x), 8 * (r - x) + 8) =~= tail.subrange(
            8 * (r - x) - 8,
            8 * (r - x),
        ));
        assert(8 * (r - x) - 8 == 8 * (r - (x + 1)));
    }
}

/// The '/'-joined text of a list of parts.
pub open spec fn join_slash(parts: Seq<Seq<char>>) -> Seq<char>
    decreases parts.len(),
{
    if parts.len() == 0 {
        Seq::empty()
    } else if parts.len() == 1 {
        parts[0]
    } else {
        parts[0] + seq!['/'] + join_slash(parts.drop_first())
    }
}

/// The slash scan stops on a slash.
proof fn lemma_slash_char(s: Seq<char>, i: int)
    requires
        0 <= i <= s.len(),
        slash_end_from(s, i) < s.len(),
    ensures
        s[slash_end_from(s, i)] == '/',
    decreases s.len() - i,
{
    if i < s.len() && s[i] != '/' {
        lemma_slash_char(s, i + 1);
    }
}

/// Joining what splitting produced gives the text back.
proof fn lemma_join_split(s: Seq<char>, i: int)
    requires
        0 <= i <= s.len(),
    ensures
        join_slash(split_slash_from(s, i)) == s.subrange(i, s.len() as int),
    decreases s.len() - i,
{
    let e = slash_end_from(s, i);
    lemma_slash_bounds(s, i);
    if e >= s.len() {
        assert(join_slash(split_slash_from(s, i)) =~= s.subrange(i, s.len() as int));
    } else {
        lemma_slash_char(s, i);
        lemma_join_split(s, e + 1);
        let parts = split_slash_from(s, i);
        let rest = split_slash_from(s, e + 1);
        assert(rest.len() >= 1);
        assert(parts.len() >= 2);
        assert(parts.drop_first() =~= rest);
        assert(join_slash(parts) == parts[0] + seq!['/'] + join_slash(rest));
        assert(join_slash(parts) =~= s.subrange(i, s.len() as int));
    }
}

/// Exporting the assembled ranks joins the original parts with '/'.
proof fn lemma_pe_join(sq: Seq<Option<Piece>>, parts: Seq<Seq<char>>, r: int)
    requires
        0 <= r < 8,
        parts.len() == 8,
        forall|q: int| 0 <= q <= r ==> collapse(rank_seg(sq, q)) == parts[7 - q],
    ensures
        placement_export_from(sq, r) == join_slash(parts.subrange(7 - r, 8)),
    decreases r,
{
    if r == 0 {
        assert(parts.subrange(7, 8).len() == 1);
        assert(parts.subrange(7, 8)[0] == parts[7]);
        assert(placement_export_from(sq, 0) =~= join_slash(parts.subrange(7, 8)));
    } else {
        lemma_pe_join(sq, parts, r - 1);
        let sub = parts.subrange(7 - r, 8);
        assert(sub.len() == r + 1);
        assert(sub[0] == parts[7 - r]);
        assert(sub.drop_first() =~= parts.subrange(7 - r + 1, 8));
        assert(join_slash(sub) == sub[0] + seq!['/'] + join_slash(sub.drop_first()));
        assert(placement_export_from(sq, r) =~= join_slash(sub));
    }
}

/// A placement field is canonical when each of its ranks is.
pub open spec fn placement_canonical(parts: Seq<Seq<char>>) -> bool {
    forall|x: int| 0 <= x < parts.len() ==> rank_canonical(#[trigger] parts[x])
}

/// Exporting a parsed canonical placement field reproduces it
/// exactly.
proof fn lemma_placement_round_trip(f0: Seq<char>)
    requires
        placement_ok(split_slash(f0)),
        placement_canonical(split_slash(f0)),
    ensures
        placement_export(placement_squares(split_slash(f0))) == f0,
{
    let parts = split_slash(f0);
    let sq = placement_squares(parts);
    lemma_ps_len(parts, 0);
    assert forall|r: int| 0 <= r < 8 implies collapse(#[trigger] rank_seg(sq, r)) == parts[7
        - r] by {
        lemma_rank_seg_from(parts, 0, r);
        let seg = rank_seg(sq, r);
        assert(seg == expand_rank(parts[7 - r]));
        assert(seg.subrange(0, seg.len() as int) =~= expand_rank(parts[7 - r]));
        assert(rank_ok(parts[7 - r]));
        lemma_collapse_expand(parts[7 - r], seg, 0);
    };
    lemma_pe_join(sq, parts, 7);
    assert(parts.subrange(0, 8) =~= parts);
    lemma_join_split(f0, 0);
    assert(f0.subrange(0, f0.len() as int) =~= f0);
}

/// A FEN string is canonical when its six fields are separated by
/// single spaces with nothing around them, empty runs are written as
/// one maximal digit, castling letters stand in K, Q, k, q order, and
/// the counters carry no leading zeros. The parser accepts more (for
/// example tab separators or a rank written "44"); export restores
/// exactly the canonical strings.
pub open spec fn fen_canonical(s: Seq<char>) -> bool {
    let fs = split_ws(s);
    fs.len() == 6 && s == fs[0] + seq![' '] + fs[1] + seq![' '] + fs[2] + seq![' '] + fs[3]
        + seq![' '] + fs[4] + seq![' '] + fs[5] && placement_canonical(split_slash(fs[0]))
        && castling_canonical(fs[2]) && num_canonical(fs[4]) && num_canonical(fs[5])
}

/// The round-trip law: exporting any board parsed from a canonical
/// FEN string reproduces that string byte for byte. The hypotheses on
/// `b` are exactly what [`Board::new_from_fen`] ensures of its result.
pub proof fn lemma_fen_round_trip(s: Seq<char>, b: Board)
    requires
        fen_ok(s),
        fen_canonical(s),
        b.squares@ == fen_squares(s),
        b.active_colour == fen_colour(s),
        b.castling_rights == fen_castling(s),
        b.en_passant_target_square == fen_ep(s),
        b.half_move_clock as int == fen_half(s),
        b.full_move_number as int == fen_full(s),
    ensures
        fen_export(b) == s,
{
    let fs = split_ws(s);
    lemma_placement_round_trip(fs[0]);
    assert(seq![b.active_colour.fen_char()] =~= fs[1]);
    lemma_castling_round_trip(fs[2]);
    lemma_ep_round_trip(fs[3]);
    lemma_counter_round_trip(fs[4]);
    lemma_counter_round_trip(fs[5]);
    assert(fen_export(b) =~= s);
}


} // verus!
