use chess_core::coordinate::Coordinate;
use chess_core::errors::BoardError;

#[test]
fn coord_from_str() {
    let coord = Coordinate { file: 'a', rank: 1 };
    assert_eq!(coord, Coordinate::from_str("a1").unwrap());
    let coord = Coordinate { file: 'h', rank: 8 };
    assert_eq!(coord, Coordinate::from_str("h8").unwrap());
}

#[test]
fn coord_from_usize() {
    let coord = Coordinate { file: 'a', rank: 1 };
    let index = 0usize;
    assert_eq!(coord, Coordinate::from_index(index));

    let coord = Coordinate { file: 'h', rank: 8 };
    let index = 63usize;
    assert_eq!(coord, Coordinate::from_index(index));
}

#[test]
fn coord_into_usize() {
    let coord = Coordinate { file: 'a', rank: 1 };
    let index = 0usize;
    assert_eq!(index, coord.to_index());
    let coord = Coordinate { file: 'h', rank: 8 };
    let index = 63usize;
    assert_eq!(index, coord.to_index());
    let coord = Coordinate { file: 'b', rank: 1 };
    let index = 1usize;
    assert_eq!(index, coord.to_index());
    let coord = Coordinate { file: 'b', rank: 2 };
    let index = 9usize;
    assert_eq!(index, coord.to_index());
}

#[test]
fn coord_index_bijection() {
    // decode then encode: the identity on every index
    for i in 0..64usize {
        assert_eq!(Coordinate::from_index(i).to_index(), i);
    }
    // encode then decode: the identity on every coordinate
    for file in ['a', 'b', 'c', 'd', 'e', 'f', 'g', 'h'] {
        for rank in 1..=8usize {
            let coord = Coordinate { file, rank };
            assert_eq!(Coordinate::from_index(coord.to_index()), coord);
        }
    }
}

#[test]
fn coord_rejects_bad_tokens() {
    assert!(matches!(
        Coordinate::from_str("i1"),
        Err(BoardError::CoordinateError(_))
    ));
    assert!(matches!(
        Coordinate::from_str("a9"),
        Err(BoardError::CoordinateError(_))
    ));
    assert!(matches!(
        Coordinate::from_str("a0"),
        Err(BoardError::CoordinateError(_))
    ));
    assert!(matches!(
        Coordinate::from_str("a12"),
        Err(BoardError::CoordinateError(_))
    ));
    assert_eq!(Coordinate::from_str("ax"), Err(BoardError::ParseInt));
}
