use countdown_numbers_game::solvers::BruteForceSolver;
use countdown_numbers_game::{Equation, Operation};

/// The numbers of a chain from the first to the last.
fn numbers_of(equation: &Equation) -> Vec<i32> {
    let mut numbers = vec![equation.number];
    let mut at = equation;
    while let Operation::Op(_, next) = &at.operation {
        numbers.push(next.number);
        at = next;
    }
    numbers
}

fn run(target: i32, numbers: &[i32]) -> (Option<String>, u64) {
    let mut solver = BruteForceSolver::new();
    let result = solver.solve(target, numbers);
    if let Some(equation) = &result {
        assert_eq!(equation.solve(), Ok(target));
        let mut used = numbers_of(equation);
        let mut given = numbers.to_vec();
        used.sort();
        given.sort();
        assert_eq!(used, given);
    }
    (result.map(|e| e.format()), solver.permutation_count)
}

fn some(text: &str) -> Option<String> {
    Some(text.to_string())
}

#[test]
fn bruteforce_new_has_counted_nothing() {
    assert_eq!(BruteForceSolver::new().permutation_count, 0);
    assert_eq!(BruteForceSolver::default().permutation_count, 0);
}

#[test]
fn bruteforce_single_number() {
    assert_eq!(run(7, &[7]), (some("7"), 1));
    assert_eq!(run(8, &[7]), (None, 1));
    assert_eq!(run(-7, &[-7]), (some("-7"), 1));
}

#[test]
fn bruteforce_no_numbers() {
    assert_eq!(run(0, &[]), (None, 1));
}

#[test]
fn bruteforce_pairs_first_in_order() {
    assert_eq!(run(15, &[10, 5]), (some("(10 + 5)"), 2));
    assert_eq!(run(5, &[10, 5]), (some("(10 - 5)"), 3));
    assert_eq!(run(50, &[10, 5]), (some("(10 * 5)"), 4));
    assert_eq!(run(2, &[10, 5]), (some("(10 / 5)"), 5));
    assert_eq!(run(-5, &[10, 5]), (some("(5 - 10)"), 7));
    assert_eq!(run(3, &[10, 5]), (None, 8));
    assert_eq!(run(100, &[5, 10]), (None, 8));
    assert_eq!(run(4, &[2, 2]), (some("(2 + 2)"), 2));
    assert_eq!(run(-7, &[3, 10]), (some("(3 - 10)"), 3));
    assert_eq!(run(-30, &[3, -10]), (some("(3 * -10)"), 4));
}

#[test]
fn bruteforce_every_pair_target_is_found() {
    let numbers = [12, 4];
    for target in [16, 8, 48, 3, -8] {
        let (found, _) = run(target, &numbers);
        assert!(found.is_some(), "target {}", target);
    }
    for target in [0, 1, 2, 4, 12, 17, 47, -3] {
        let (found, count) = run(target, &numbers);
        assert_eq!(found, None, "target {}", target);
        assert_eq!(count, 8);
    }
}

#[test]
fn bruteforce_division_is_offered_only_where_exact() {
    // 7 / 2 and 2 / 7 are not offered: six steps, none reaches 3
    assert_eq!(run(3, &[7, 2]), (None, 7));
    // 0 / 5 is offered, 5 / 0 is not
    assert_eq!(run(1, &[5, 0]), (None, 8));
}

#[test]
fn bruteforce_three_and_four_numbers() {
    assert_eq!(run(21, &[3, 4, 10]), (None, 75));
    assert_eq!(run(70, &[3, 4, 10]), (some("(10 * (3 + 4))"), 5));
    assert_eq!(run(49, &[3, 4, 7]), (some("(7 * (3 + 4))"), 5));
    assert_eq!(run(51, &[3, 4, 7, 100]), (some("(100 - (7 * (3 + 4)))"), 16));
    assert_eq!(run(0, &[5, 5, 0]), (some("(0 * (5 + 5))"), 5));
    assert_eq!(run(14, &[3, 4, 7, 7]), (some("(7 - (7 * (3 - 4)))"), 60));
    assert_eq!(run(24, &[1, 3, 4, 6]), (None, 1402));
    assert_eq!(run(-1, &[1, 2, 4]), (some("(2 + (1 - 4))"), 21));
    assert_eq!(run(21, &[1, 2, 3, 4]), (some("(3 * (4 + (1 + 2)))"), 29));
    assert_eq!(run(100, &[1, 2, 3, 4, 5]), (some("(5 * (4 * (3 + (1 * 2))))"), 1102));
}

#[test]
fn bruteforce_keeps_every_number() {
    // 2 + 3 beside 0: the product with 0 is built from the 0 that was given
    assert_eq!(run(0, &[2, 3, 0]), (some("(0 * (2 + 3))"), 5));
    // 8 stands on the left only as it was given
    assert_eq!(run(9, &[8, 3, 2, 1]), (some("(1 * (3 + (8 - 2)))"), 138));
}

#[test]
fn bruteforce_finds_chains_only() {
    // (2 + 4) * (5 + 7) has a sum on the left: no chain gives 72
    assert_eq!(run(72, &[2, 4, 5, 7]), (None, 1252));
    // (2 * 3) + (5 * 7) neither
    assert_eq!(run(41, &[2, 3, 5, 7]), (None, 1207));
    assert_eq!(run(40, &[2, 3, 5, 7]), (some("(5 + (7 * (2 + 3)))"), 35));
    assert_eq!(run(210, &[2, 3, 5, 7]), (some("(7 * (5 * (2 * 3)))"), 93));
    assert_eq!(run(60, &[2, 3, 5, 7]), (some("(5 * (7 + (2 + 3)))"), 29));
    assert_eq!(run(16, &[2, 3, 5, 7]), (some("(7 - (3 * (2 - 5)))"), 160));
    assert_eq!(run(2, &[2, 3, 5, 7]), (some("(7 + (5 * (2 - 3)))"), 51));
    // the same numbers in another order
    for target in [40, 210, 60, 16, 2] {
        let (found, _) = run(target, &[7, 5, 3, 2]);
        assert!(found.is_some(), "target {}", target);
    }
    for target in [41, 1000, -1000] {
        assert_eq!(run(target, &[7, 5, 3, 2]).0, None, "target {}", target);
    }
    assert_eq!(run(72, &[7, 5, 4, 2]).0, None);
}

#[test]
fn bruteforce_six_numbers_first_in_order() {
    assert_eq!(
        run(113, &[50, 25, 3, 1, 10, 7]),
        (some("(7 + (1 + (3 * (10 + (50 - 25)))))"), 14133)
    );
    assert_eq!(
        run(206, &[100, 3, 1, 4, 10, 10]),
        (some("(100 - (10 + (4 * (1 - (3 * 10)))))"), 295833)
    );
    assert_eq!(
        run(327, &[6, 7, 7, 1, 5, 8]),
        (some("(7 + (8 * (5 + (7 * (6 - 1)))))"), 72216)
    );
    assert_eq!(
        run(887, &[50, 25, 100, 3, 5, 8]),
        (some("(50 - (3 - (8 * (100 + (25 / 5)))))"), 255960)
    );
}

#[test]
fn bruteforce_unsolvable_visits_every_position() {
    assert_eq!(run(999, &[1, 2, 3, 4, 5, 6]), (None, 998859));
}

#[test]
fn bruteforce_counter_starts_anew_with_every_call() {
    let mut solver = BruteForceSolver::new();
    assert!(solver.solve(24, &[1, 3, 4, 6]).is_none());
    assert_eq!(solver.permutation_count, 1402);
    assert!(solver.solve(15, &[10, 5]).is_some());
    assert_eq!(solver.permutation_count, 2);
    assert!(solver.solve(15, &[10, 5]).is_some());
    assert_eq!(solver.permutation_count, 2);
}

#[test]
fn bruteforce_leaves_out_what_is_no_i32() {
    assert_eq!(
        run(0, &[2000000000, 2000000000]),
        (some("(2000000000 - 2000000000)"), 2)
    );
    // sum and product of the two leave the range: they are not tried
    assert_eq!(run(-294967296, &[2000000000, 2000000000]), (None, 5));
    // of the eight steps, two stay in range: neither gives the target
    assert_eq!(run(-2147483648, &[-2147483648, -1]), (None, 3));
    assert_eq!(run(2147483647, &[-2147483648, -1]), (some("(-1 - -2147483648)"), 3));
}
