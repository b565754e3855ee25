use queens::Board;

#[test]
fn board_1by1_isvalid() {
    let queens = vec![(0, 0)];
    let board = Board::square(1, queens);
    assert_eq!(true, board.is_valid());
}

#[test]
fn board_2by2_isnotvalid() {
    let queens = vec![(0, 0), (1, 1)];
    let board = Board::square(2, queens);
    assert_eq!(false, board.is_valid());
}

#[test]
fn board_4x4_with_two_queens_is_invalid() {
    let board = Board::square(4, vec![(0, 0), (1, 2)]);
    assert_eq!(false, board.is_valid());
}

#[test]
fn board_4x4_valid() {
    let queens = vec![(0, 1), (1, 3), (2, 0), (3, 2)];
    let board = Board::square(4, queens);
    assert_eq!(true, board.is_valid());
}

#[test]
fn board_4x4_same_row_invalid() {
    let queens = vec![(0, 0), (0, 1), (0, 2), (0, 3)];
    let board = Board::square(4, queens);
    assert_eq!(false, board.is_valid());
}

#[test]
fn board_4x4_same_col_invalid() {
    let queens = vec![(0, 0), (1, 0), (2, 0), (3, 0)];
    let board = Board::square(4, queens);
    assert_eq!(false, board.is_valid());
}

#[test]
fn board_4x4_same_diagonal_positive_invalid() {
    let queens = vec![(0, 1), (1, 2), (2, 0), (3, 3)];
    let board = Board::square(4, queens);
    assert_eq!(false, board.is_valid());
}

#[test]
fn board_4x4_same_diagonal_negative_invalid() {
    let queens = vec![(0, 3), (1, 1), (2, 0), (3, 2)];
    let board = Board::square(4, queens);
    assert_eq!(false, board.is_valid());
}

#[test]
fn board_8x8_valid() {
    let queens = vec![
        (0, 4),
        (1, 1),
        (2, 3),
        (3, 6),
        (4, 2),
        (5, 7),
        (6, 5),
        (7, 0),
    ];
    let board = Board::square(8, queens);
    assert_eq!(true, board.is_valid());
}

#[test]
fn empty_board_with_no_queens_is_valid() {
    assert!(Board::square(0, vec![]).is_valid());
    assert!(Board::rectangle(0, 5, vec![]).is_valid());
    assert!(Board::rectangle(3, 0, vec![]).is_valid());
}

#[test]
fn empty_board_with_a_queen_is_invalid() {
    assert!(!Board::rectangle(0, 3, vec![(0, 0)]).is_valid());
}

#[test]
fn repeated_square_counts_once() {
    assert!(Board::square(1, vec![(0, 0), (0, 0)]).is_valid());
    assert!(Board::square(4, vec![(0, 1), (1, 3), (1, 3), (2, 0), (3, 2), (0, 1)]).is_valid());
}

#[test]
fn rectangle_full_at_smaller_side() {
    // Two rows of a four-wide board: two queens fill it.
    assert!(Board::rectangle(4, 2, vec![(0, 0), (1, 2)]).is_valid());
    assert!(!Board::rectangle(4, 2, vec![(0, 0), (1, 1)]).is_valid());
    assert!(!Board::rectangle(4, 2, vec![(0, 0)]).is_valid());
    assert!(Board::rectangle(2, 4, vec![(0, 0), (2, 1)]).is_valid());
}

#[test]
fn too_many_queens_is_invalid() {
    assert!(!Board::square(2, vec![(0, 0), (1, 3), (3, 0)]).is_valid());
}

#[test]
fn off_board_squares_are_accepted() {
    // Squares outside the board take part in the checks like any other.
    assert!(Board::square(2, vec![(0, 0), (5, 2)]).is_valid());
    assert!(!Board::square(2, vec![(0, 0), (5, 5)]).is_valid());
}

#[test]
fn large_coordinates_do_not_wrap() {
    let big = usize::MAX;
    // Rows, columns and both diagonals differ as integers.
    assert!(Board::square(2, vec![(0, 0), (big, big - 2)]).is_valid());
    assert!(!Board::square(2, vec![(0, 0), (big, big)]).is_valid());
}

#[test]
fn validity_is_the_same_when_asked_twice() {
    let valid = Board::square(4, vec![(0, 1), (1, 3), (2, 0), (3, 2)]);
    assert_eq!(valid.is_valid(), valid.is_valid());
    let invalid = Board::square(4, vec![(0, 0), (1, 1), (2, 2), (3, 3)]);
    assert_eq!(invalid.is_valid(), invalid.is_valid());
    assert!(!invalid.is_valid());
}

#[test]
fn mirrored_solution_is_valid() {
    let queens = vec![(0, 4), (1, 1), (2, 3), (3, 6), (4, 2), (5, 7), (6, 5), (7, 0)];
    let mirrored: Vec<(usize, usize)> = queens.iter().map(|&(r, c)| (r, 7 - c)).collect();
    assert!(Board::square(8, queens).is_valid());
    assert!(Board::square(8, mirrored).is_valid());
}

#[test]
fn no_two_by_two_placement_is_valid() {
    let squares = [(0, 0), (0, 1), (1, 0), (1, 1)];
    for i in 0..4 {
        for j in 0..4 {
            let board = Board::square(2, vec![squares[i], squares[j]]);
            assert!(!board.is_valid());
        }
    }
}

#[test]
fn has_queen_reports_occupied_squares() {
    let board = Board::rectangle(3, 2, vec![(0, 2), (1, 0)]);
    assert!(board.has_queen((0, 2)));
    assert!(board.has_queen((1, 0)));
    assert!(!board.has_queen((0, 0)));
    assert!(!board.has_queen((2, 0)));
    assert_eq!(board.width(), 3);
    assert_eq!(board.height(), 2);
}

#[test]
fn render_marks_queens_row_by_row() {
    let board = Board::square(4, vec![(0, 1), (1, 3), (2, 0), (3, 2)]);
    assert_eq!(board.render(), ". Q . . \n. . . Q \nQ . . . \n. . Q . \n");
    let wide = Board::rectangle(3, 1, vec![(0, 2)]);
    assert_eq!(wide.render(), ". . Q \n");
    assert_eq!(Board::rectangle(0, 2, vec![]).render(), "\n\n");
    assert_eq!(Board::rectangle(2, 0, vec![]).render(), "");
}
