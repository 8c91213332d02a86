//! Human-readable chess coordinates (file a-h, rank 1-8) and their
//! bijection with the flat square index 0..63, where a1 = 0 and h8 = 63.

use vstd::prelude::*;

use crate::errors::BoardError;

verus! {

#[derive(PartialEq, Eq, Structural, Debug, Clone, Copy)]
pub struct Coordinate {
    pub file: char,
    pub rank: usize,
}

/// The letter of file number `f` (0 is 'a', 7 is 'h').
pub open spec fn file_char(f: int) -> char {
    if f == 0 {
        'a'
    } else if f == 1 {
        'b'
    } else if f == 2 {
        'c'
    } else if f == 3 {
        'd'
    } else if f == 4 {
        'e'
    } else if f == 5 {
        'f'
    } else if f == 6 {
        'g'
    } else {
        'h'
    }
}

/// The coordinate of a flat square index.
pub open spec fn coord_of_index(i: int) -> Coordinate {
    Coordinate { file: file_char(i % 8), rank: (i / 8 + 1) as usize }
}

impl Coordinate {
    /// A coordinate names a real square: file a-h, rank 1-8.
    pub open spec fn valid(self) -> bool {
        'a' as int <= self.file as int <= 'h' as int && 1 <= self.rank <= 8
    }

    /// The flat index of this coordinate.
    pub open spec fn index_spec(self) -> int {
        self.file as int - 'a' as int + 8 * (self.rank - 1)
    }

    /// Convert this coordinate to its flat square index.
    pub fn to_index(&self) -> (r: usize)
        requires
            self.valid(),
        ensures
            r == self.index_spec(),
            r < 64,
    {
        let f = self.file as u32 as usize;
        f - 97 + 8 * (self.rank - 1)
    }

    /// Convert a flat square index back to a coordinate; total over 0..63.
    pub fn from_index(i: usize) -> (r: Coordinate)
        requires
            i < 64,
        ensures
            r == coord_of_index(i as int),
            r.valid(),
            r.index_spec() == i,
    {
        let file = match i % 8 {
            0 => 'a',
            1 => 'b',
            2 => 'c',
            3 => 'd',
            4 => 'e',
            5 => 'f',
            6 => 'g',
            _ => 'h',
        };
        Coordinate { file, rank: i / 8 + 1 }
    }

    /// What a two-character square token denotes: a file letter a-h
    /// followed by a rank digit 1-8.
    pub open spec fn spec_of_str(s: Seq<char>) -> Option<Coordinate> {
        if s.len() == 2 && is_file_letter(s[0]) && is_ascii_digit(s[1]) && 1 <= digit_value(s[1]) <= 8 {
            Some(Coordinate { file: s[0], rank: digit_value(s[1]) as usize })
        } else {
            None
        }
    }

    /// Parse a square token such as "e3". Rejects files outside a-h,
    /// ranks outside 1-8, and tokens that are not exactly two characters.
    pub fn from_str(s: &str) -> (r: Result<Coordinate, BoardError>)
        ensures
            r is Ok <==> Self::spec_of_str(s@) is Some,
            r is Ok ==> Some(r->Ok_0) == Self::spec_of_str(s@),
            r is Err ==> (if s@.len() == 2 && !is_ascii_digit(s@[1]) {
                r->Err_0 == BoardError::ParseInt
            } else {
                r->Err_0 is CoordinateError
            }),
    {
        if s.unicode_len() != 2 {
            return Err(BoardError::CoordinateError(String::from_str(
                "must contain exactly 2 chars",
            )));
        }
        let file = s.get_char(0);
        let rank_char = s.get_char(1);
        let rc = rank_char as u32;
        if rc < 48 || rc > 57 {
            return Err(BoardError::ParseInt);
        }
        let rank = (rc - 48) as usize;
        let fc = file as u32;
        if fc < 97 || fc > 104 {
            return Err(BoardError::CoordinateError(String::from_str(
                "file not in range a-h",
            )));
        }
        if rank < 1 || rank > 8 {
            return Err(BoardError::CoordinateError(String::from_str(
                "rank not in range 1..=8",
            )));
        }
        Ok(Coordinate { file, rank })
    }
}

/// True of the characters 'a' through 'h'.
pub open spec fn is_file_letter(c: char) -> bool {
    'a' as int <= c as int <= 'h' as int
}

/// True of the characters '0' through '9'.
pub open spec fn is_ascii_digit(c: char) -> bool {
    '0' as int <= c as int <= '9' as int
}

/// The numeric value of an ASCII digit character.
pub open spec fn digit_value(c: char) -> int {
    c as int - '0' as int
}

/// Encoding a valid coordinate and decoding the index gives the
/// coordinate back: one direction of the coordinate bijection.
pub proof fn lemma_coord_index_identity(c: Coordinate)
    requires
        c.valid(),
    ensures
        0 <= c.index_spec() < 64,
        coord_of_index(c.index_spec()) == c,
{
    let i = c.index_spec();
    assert(i % 8 == c.file as int - 'a' as int && i / 8 == c.rank - 1) by {
        assert(0 <= (c.file as int - 'a' as int) && (c.file as int - 'a' as int) < 8);
    };
    assert(file_char(i % 8) == c.file);
}

/// Decoding any index 0..63 and encoding the coordinate gives the
/// index back: the other direction of the coordinate bijection.
pub proof fn lemma_index_coord_identity(i: int)
    requires
        0 <= i < 64,
    ensures
        coord_of_index(i).valid(),
        coord_of_index(i).index_spec() == i,
{
}

} // verus!
