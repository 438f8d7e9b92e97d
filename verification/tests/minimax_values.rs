use countdown_numbers_game::solvers::{BruteForceSolver, MinimaxSolver};

fn run(depth: usize, target: i32, numbers: &[i32]) -> (Option<String>, u64) {
    let mut solver = MinimaxSolver::with_depth(depth);
    let result = solver.solve(target, numbers);
    if let Some(equation) = &result {
        let value = equation.solve().unwrap();
        assert!((value as i64 - target as i64).abs() < 100);
    }
    (result.map(|e| e.format()), solver.nodes_explored)
}

fn some(text: &str) -> Option<String> {
    Some(text.to_string())
}

#[test]
fn minimax_new_has_the_default_depth() {
    let solver = MinimaxSolver::new();
    assert_eq!(solver.nodes_explored, 0);
    assert_eq!(solver.max_depth, 6);
    let solver = MinimaxSolver::default();
    assert_eq!(solver.nodes_explored, 0);
    assert_eq!(solver.max_depth, 6);
    let solver = MinimaxSolver::with_depth(8);
    assert_eq!(solver.nodes_explored, 0);
    assert_eq!(solver.max_depth, 8);
}

#[test]
fn minimax_target_among_the_numbers_is_the_answer() {
    for depth in [0, 1, 6] {
        assert_eq!(run(depth, 5, &[10, 5]), (some("5"), 0));
        assert_eq!(run(depth, 7, &[7]), (some("7"), 0));
        assert_eq!(run(depth, 0, &[5, 5, 0]), (some("0"), 0));
        assert_eq!(run(depth, 25, &[50, 25, 3, 1, 10, 7]), (some("25"), 0));
    }
}

#[test]
fn minimax_without_depth_looks_at_the_start_only() {
    // the first of the closest numbers is the answer where it is close enough
    assert_eq!(run(0, 15, &[10, 5]), (some("10"), 1));
    assert_eq!(run(0, 3, &[10, 5]), (some("5"), 1));
    assert_eq!(run(0, 21, &[3, 4, 10]), (some("10"), 1));
    assert_eq!(run(0, 7, &[3, 4, 9]), (some("9"), 1));
    assert_eq!(run(0, 150, &[10, 5]), (None, 1));
    assert_eq!(run(0, 8, &[7]), (some("7"), 1));
    assert_eq!(run(0, 106, &[7]), (some("7"), 1));
    assert_eq!(run(0, 107, &[7]), (None, 1));
    assert_eq!(run(0, -92, &[7]), (some("7"), 1));
    assert_eq!(run(0, -93, &[7]), (None, 1));
}

#[test]
fn minimax_no_numbers() {
    assert_eq!(run(6, 0, &[]), (None, 1));
}

#[test]
fn minimax_pairs() {
    for depth in [1, 2, 6] {
        assert_eq!(run(depth, 15, &[10, 5]), (some("(10 + 5)"), 8));
        assert_eq!(run(depth, 50, &[10, 5]), (some("(10 * 5)"), 8));
        assert_eq!(run(depth, 2, &[10, 5]), (some("(10 / 5)"), 8));
        assert_eq!(run(depth, 4, &[2, 2]), (some("(2 + 2)"), 9));
        assert_eq!(run(depth, -7, &[3, 10]), (some("(3 - 10)"), 7));
        assert_eq!(run(depth, -30, &[3, -10]), (some("(3 * -10)"), 7));
    }
}

#[test]
fn minimax_returns_the_first_of_the_closest() {
    // 2 and 5 are both next to 3 and 4: the first branch in order stays
    assert_eq!(run(6, 3, &[10, 5]), (some("(10 / 5)"), 8));
    assert_eq!(run(6, 100, &[5, 10]), (some("(5 * 10)"), 8));
    assert_eq!(run(2, 21, &[3, 4, 10]), (some("(10 + (3 * 4))"), 131));
}

#[test]
fn minimax_depth_bounds_the_steps() {
    assert_eq!(run(1, 70, &[3, 4, 10]), (some("(4 * 10)"), 19));
    assert_eq!(run(2, 70, &[3, 4, 10]), (some("(10 * (3 + 4))"), 131));
    assert_eq!(run(6, 70, &[3, 4, 10]), (some("(10 * (3 + 4))"), 131));
    assert_eq!(run(1, 51, &[3, 4, 7, 100]), (some("(4 * 7)"), 38));
    assert_eq!(run(2, 51, &[3, 4, 7, 100]), (some("(7 * (3 + 4))"), 738));
    assert_eq!(run(6, 51, &[3, 4, 7, 100]), (some("(100 - (7 * (3 + 4)))"), 5138));
    assert_eq!(run(1, 100, &[1, 2, 3, 4, 5]), (some("(4 * 5)"), 66));
    assert_eq!(run(2, 100, &[1, 2, 3, 4, 5]), (some("(5 * (3 * 4))"), 2627));
    assert_eq!(run(6, 100, &[1, 2, 3, 4, 5]), (some("(5 * (4 * (3 + (1 * 2))))"), 389323));
    // nothing within a hundred of the target
    assert_eq!(run(1, 500, &[3, 4, 7, 7]), (None, 39));
    assert_eq!(run(1, 1000, &[10, 5, 2]), (None, 21));
}

#[test]
fn minimax_stops_where_an_expression_hits_the_target() {
    // 3 + 4 gives 7 beside the 7 that is there; no position of two 7s is
    // expanded once one expression evaluates to 49
    assert_eq!(run(2, 49, &[3, 4, 7]), (some("(7 * (3 + 4))"), 141));
    assert_eq!(run(6, 49, &[3, 4, 7]), (some("(7 * (3 + 4))"), 141));
}

#[test]
fn minimax_hands_up_the_expression_that_hits() {
    // 3 + 4 hits 7 while 9 is left: the position hands up its expression
    assert_eq!(run(6, 7, &[3, 4, 9]), (some("(3 + 4)"), 128));
    assert_eq!(run(1, 7, &[3, 4, 9]), (some("(3 + 4)"), 20));
    assert_eq!(run(1, 14, &[3, 4, 7, 7]), (some("(7 + 7)"), 39));
    assert_eq!(run(6, 24, &[1, 3, 4, 6]), (some("(6 * (1 + 3))"), 5615));
}

#[test]
fn minimax_keeps_one_expression_for_a_value() {
    // 3 + 4 gives a 7 beside the two that are there: its expression stands
    // for all of them, and the sum of two of them is built from it twice
    assert_eq!(run(2, 14, &[3, 4, 7, 7]), (some("(3 + (4 + (3 + 4)))"), 743));
    assert_eq!(run(6, 14, &[3, 4, 7, 7]), (some("(3 + (4 + (3 + 4)))"), 5039));
    let mut exhaustive = BruteForceSolver::new();
    let found = exhaustive.solve(14, &[3, 4, 7, 7]);
    assert_eq!(found.map(|e| e.format()), some("(7 - (7 * (3 - 4)))"));
}

#[test]
fn minimax_expression_may_repeat_numbers() {
    let mut solver = MinimaxSolver::with_depth(100);
    let result = solver.solve(999, &[1, 2, 3, 4, 5, 6]);
    let equation = result.unwrap();
    assert_eq!(equation.format(), "(5 * (4 * (5 * (4 + 6))))");
    assert_eq!(equation.solve(), Ok(1000));
    assert_eq!(solver.nodes_explored, 38159652);
}

#[test]
fn minimax_six_numbers_first_of_the_best() {
    assert_eq!(
        run(8, 113, &[50, 25, 3, 1, 10, 7]),
        (some("(50 + (25 + (10 + (7 * (3 + 1)))))"), 32473524)
    );
}

#[test]
fn minimax_six_numbers_with_a_number_twice() {
    assert_eq!(
        run(8, 327, &[6, 7, 7, 1, 5, 8]),
        (some("(7 - (8 * (1 - (6 + (7 * 5)))))"), 35264920)
    );
}

#[test]
fn minimax_counter_starts_anew_with_every_call() {
    let mut solver = MinimaxSolver::with_depth(6);
    assert!(solver.solve(24, &[1, 3, 4, 6]).is_some());
    assert_eq!(solver.nodes_explored, 5615);
    assert_eq!(solver.target, 24);
    assert!(solver.solve(15, &[10, 5]).is_some());
    assert_eq!(solver.nodes_explored, 8);
    assert!(solver.solve(5, &[10, 5]).is_some());
    assert_eq!(solver.nodes_explored, 0);
    assert_eq!(solver.target, 5);
    assert_eq!(solver.max_depth, 6);
}

#[test]
fn minimax_leaves_out_what_is_no_i32() {
    assert_eq!(
        run(6, 0, &[2000000000, 2000000000]),
        (some("(2000000000 - 2000000000)"), 5)
    );
    assert_eq!(run(6, 2147483647, &[-2147483648, -1]), (some("(-1 - -2147483648)"), 3));
    // every value that can be reached is far beyond the bound
    assert_eq!(run(6, 2147483647, &[-2147483648, 1]), (None, 6));
}
