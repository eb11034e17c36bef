use lattice::keygen::{key_cell, key_pattern, random_key_pattern, KeySearch, KeyStep};
use lattice::matrix_text::{number_token_rows, parse_matrix_text};
use lattice::transform::product_shape;
use lattice::LatticeError;

#[test]
fn matrix_text_tokens_inside_brackets() {
    let text = "\n  ┌          ┐\n  │   1  2.5 │\n  │ -3   4 │\n  └          ┘\n\n";
    let rows = parse_matrix_text(text).unwrap();
    assert_eq!(rows, vec![vec!["1", "2.5"], vec!["-3", "4"]]);
}

#[test]
fn matrix_text_token_at_end_of_text() {
    let rows = parse_matrix_text("1 2\r\n3 4").unwrap();
    assert_eq!(rows, vec![vec!["1", "2"], vec!["3", "4"]]);
}

#[test]
fn matrix_text_without_numbers_is_a_format_error() {
    assert_eq!(parse_matrix_text("[ ]\nno numbers here\n"), Err(LatticeError::Format));
    assert_eq!(parse_matrix_text(""), Err(LatticeError::Format));
}

#[test]
fn matrix_text_with_ragged_rows_is_a_format_error() {
    assert_eq!(parse_matrix_text("1 2\n3\n"), Err(LatticeError::Format));
}

#[test]
fn number_token_rows_skip_lines_without_numbers() {
    let rows = number_token_rows("a\n1x2\n\n7");
    assert_eq!(rows, vec![vec!["1", "2"], vec!["7"]]);
}

#[test]
fn product_shape_mismatch_is_reported() {
    assert_eq!(product_shape(2, 3, 4, 4), Err(LatticeError::DimensionMismatch));
    assert_eq!(product_shape(2, 3, 3, 3), Ok((2, 3)));
    assert_eq!(product_shape(5, 0, 0, 2), Ok((5, 2)));
}

#[test]
fn key_cell_follows_last_decimal_digit() {
    assert_eq!(key_cell(0), 1);
    assert_eq!(key_cell(4), 1);
    assert_eq!(key_cell(5), 0);
    assert_eq!(key_cell(9), 0);
    assert_eq!(key_cell(14), 1);
    assert_eq!(key_cell(255), 0);
}

#[test]
fn key_pattern_maps_each_draw() {
    let draws = vec![vec![3, 17], vec![250, 99]];
    assert_eq!(key_pattern(&draws), vec![vec![1, 0], vec![1, 0]]);
}

#[test]
fn random_key_pattern_is_square_and_binary() {
    for size in [0usize, 1, 4, 9] {
        let p = random_key_pattern(size);
        assert_eq!(p.len(), size);
        for row in &p {
            assert_eq!(row.len(), size);
            assert!(row.iter().all(|&c| c == 0 || c == 1));
        }
    }
}

#[test]
fn key_search_accepts_invertible_pattern() {
    let mut s = KeySearch::new(3);
    assert!(s.may_draw());
    assert_eq!(s.record(false), Ok(KeyStep::Accept));
    assert_eq!(s.attempts(), 1);
    assert_eq!(s.max_attempts(), 3);
}

#[test]
fn key_search_gives_up_after_max_attempts() {
    let mut s = KeySearch::new(2);
    assert_eq!(s.record(true), Ok(KeyStep::Retry));
    assert!(s.may_draw());
    assert_eq!(s.record(true), Err(LatticeError::SingularKey));
    assert!(!s.may_draw());
    assert!(!KeySearch::new(0).may_draw());
}

#[test]
fn error_messages_are_distinct() {
    let all = [
        LatticeError::Io,
        LatticeError::Format,
        LatticeError::DimensionMismatch,
        LatticeError::SingularKey,
        LatticeError::Decode,
        LatticeError::Range,
    ];
    for (i, a) in all.iter().enumerate() {
        for b in &all[i + 1..] {
            assert_ne!(a.message(), b.message());
        }
    }
}
