use crosswords::{Crossword, Direction, EstimateSize, ParseError};

#[test]
fn parse_square_grid() {
    let g = Crossword::parse(b"abc\ndef\nghi").unwrap();
    assert_eq!(g.rows(), 3);
    assert_eq!(g.cols(), 3);
    assert_eq!(g.get(0, 0), b'a');
    assert_eq!(g.get(2, 2), b'i');
    assert_eq!(g.get_row(1), b"def".to_vec());
    assert_eq!(g.get_col(2), b"cfi".to_vec());
}

#[test]
fn parse_skips_blank_lines() {
    let g = Crossword::parse(b"\n\nab\n\ncd\n").unwrap();
    assert_eq!(g.rows(), 2);
    assert_eq!(g.cols(), 2);
    assert_eq!(g.get_row(0), b"ab".to_vec());
    assert_eq!(g.get_row(1), b"cd".to_vec());
}

#[test]
fn parse_rejects_inconsistent_rows() {
    assert_eq!(
        Crossword::parse(b"ab\nabc"),
        Err(ParseError::InconsistentRowLength)
    );
}

#[test]
fn parse_rejects_empty_input() {
    assert_eq!(Crossword::parse(b""), Err(ParseError::EmptyGrid));
    assert_eq!(Crossword::parse(b"\n\n"), Err(ParseError::EmptyGrid));
}

#[test]
fn rows_and_cols_listing() {
    let g = Crossword::new(2, b"abcdef".to_vec());
    assert_eq!(g.cols(), 3);
    let rows = g.get_rows();
    assert_eq!(rows.len(), 2);
    assert_eq!(rows[0], b"abc".to_vec());
    assert_eq!(rows[1], b"def".to_vec());
    let cols = g.get_cols();
    assert_eq!(cols.len(), 3);
    assert_eq!(cols[0], b"ad".to_vec());
    assert_eq!(cols[2], b"cf".to_vec());
}

#[test]
fn shift_point_math() {
    assert_eq!(Direction::Right.shift_point((1, 1), 2), (1, 3));
    assert_eq!(Direction::Down.shift_point((1, 1), 2), (3, 1));
    assert_eq!(Direction::Diagonal.shift_point((1, 1), 2), (3, 3));
    assert_eq!(Direction::AntiDiagonal.shift_point((1, 2), 2), (3, 0));
}

#[test]
fn shift_point_bounded_rejects_exits() {
    let bounds = (3, 3);
    assert_eq!(
        Direction::Right.shift_point_bounded((0, 0), 2, bounds),
        Some((0, 2))
    );
    assert_eq!(Direction::Right.shift_point_bounded((0, 1), 2, bounds), None);
    assert_eq!(
        Direction::AntiDiagonal.shift_point_bounded((0, 2), 2, bounds),
        Some((2, 0))
    );
    assert_eq!(
        Direction::AntiDiagonal.shift_point_bounded((0, 1), 2, bounds),
        None
    );
    assert_eq!(Direction::Down.shift_point_bounded((2, 0), 1, bounds), None);
}

#[test]
fn get_word_fetches_runs() {
    let g = Crossword::new(3, b"abcdefghi".to_vec());
    assert_eq!(g.get_word(2, 0, Direction::Right, 3), Some(b"ghi".to_vec()));
    assert_eq!(g.get_word(0, 2, Direction::Down, 3), Some(b"cfi".to_vec()));
    assert_eq!(
        g.get_word(0, 0, Direction::Diagonal, 3),
        Some(b"aei".to_vec())
    );
    assert_eq!(
        g.get_word(0, 2, Direction::AntiDiagonal, 3),
        Some(b"ceg".to_vec())
    );
    assert_eq!(g.get_word(0, 1, Direction::AntiDiagonal, 3), None);
    assert_eq!(g.get_word(0, 1, Direction::Right, 3), None);
    assert_eq!(g.get_word(1, 0, Direction::Down, 3), None);
}

#[test]
fn set_word_writes_in_bounds_runs() {
    let mut g = Crossword::new(3, b"abcdefghi".to_vec());
    assert!(g.set_word(0, 1, Direction::Down, b"xyz"));
    assert_eq!(g.get_col(1), b"xyz".to_vec());
    assert_eq!(g.get(0, 0), b'a');
    assert_eq!(g.get_row(0), b"axc".to_vec());
    assert!(!g.set_word(0, 2, Direction::Right, b"xy"));
    assert_eq!(g.get_row(0), b"axc".to_vec());
    assert_eq!(g.get(0, 2), b'c');
}

#[test]
fn estimate_size_counts_buffer() {
    let g = Crossword::new(3, b"abcdefghi".to_vec());
    assert!(g.estimate_size() >= 9);
    assert_eq!(Direction::Right.estimate_size(), 1);
}
