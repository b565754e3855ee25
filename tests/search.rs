use queens::{solve, solve_helper};

#[test]
fn solve_small_sizes() {
    assert_eq!(solve(0), 1);
    assert_eq!(solve(1), 1);
    assert_eq!(solve(2), 0);
    assert_eq!(solve(3), 0);
    assert_eq!(solve(4), 2);
    assert_eq!(solve(5), 10);
    assert_eq!(solve(6), 4);
}

#[test]
fn solve_eight_queens() {
    assert_eq!(solve(8), 92);
}

#[test]
fn solve_is_deterministic() {
    assert_eq!(solve(6), solve(6));
}

#[test]
fn helper_counts_completions_of_a_prefix() {
    // On a 4 by 4 board, each first-row column 1 and 2 leads to one solution.
    assert_eq!(solve_helper(4, vec![0]), 0);
    assert_eq!(solve_helper(4, vec![1]), 1);
    assert_eq!(solve_helper(4, vec![2]), 1);
    assert_eq!(solve_helper(4, vec![3]), 0);
    assert_eq!(solve_helper(4, vec![1, 3, 0, 2]), 1);
    assert_eq!(solve_helper(4, vec![]), 2);
}

#[test]
fn helper_prunes_attacked_prefix() {
    assert_eq!(solve_helper(8, vec![0, 1]), 0);
    assert_eq!(solve_helper(8, vec![3, 3]), 0);
}
