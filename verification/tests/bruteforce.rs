use countdown_numbers_game::solvers::BruteForceSolver;

#[test]
fn bruteforce_test_addition_solution_exists() {
    let mut solver = BruteForceSolver::new();
    let result = solver.solve(15, &[10, 5]);

    assert!(result.is_some());
    let equation = result.unwrap();
    assert_eq!(equation.solve(), Ok(15));
}

#[test]
fn bruteforce_test_subtraction_solution_exists() {
    let mut solver = BruteForceSolver::new();
    let result = solver.solve(5, &[10, 5]);

    assert!(result.is_some());
    let equation = result.unwrap();
    assert_eq!(equation.solve(), Ok(5));
}

#[test]
fn bruteforce_test_multiplication_solution_exists() {
    let mut solver = BruteForceSolver::new();
    let result = solver.solve(50, &[10, 5]);

    assert!(result.is_some());
    let equation = result.unwrap();
    assert_eq!(equation.solve(), Ok(50));
}

#[test]
fn bruteforce_test_division_solution_exists() {
    let mut solver = BruteForceSolver::new();
    let result = solver.solve(2, &[10, 5]);

    assert!(result.is_some());
    let equation = result.unwrap();
    assert_eq!(equation.solve(), Ok(2));
}

#[test]
fn bruteforce_test_no_solution_target_3() {
    let mut solver = BruteForceSolver::new();
    let result = solver.solve(3, &[10, 5]);

    assert!(result.is_none());
}

#[test]
fn bruteforce_test_no_solution_target_100() {
    let mut solver = BruteForceSolver::new();
    let result = solver.solve(100, &[5, 10]);

    assert!(result.is_none());
}

#[test]
fn bruteforce_test_complex_solution_1() {
    let mut solver = BruteForceSolver::new();
    let result = solver.solve(113, &[50, 25, 3, 1, 10, 7]);

    assert!(result.is_some());
    let equation = result.unwrap();
    assert_eq!(equation.solve(), Ok(113));

    println!("Permutations tried: {}", solver.permutation_count);
}

#[test]
fn bruteforce_test_complex_solution_2() {
    let mut solver = BruteForceSolver::new();
    let result = solver.solve(327, &[6, 7, 7, 1, 5, 8]);

    assert!(result.is_some());
    let equation = result.unwrap();
    assert_eq!(equation.solve(), Ok(327));

    println!("Permutations tried for 327: {}", solver.permutation_count);
}

#[test]
fn bruteforce_test_complex_solution_3() {
    let mut solver = BruteForceSolver::new();
    let result = solver.solve(206, &[100, 3, 1, 4, 10, 10]);

    assert!(result.is_some());
    let equation = result.unwrap();
    assert_eq!(equation.solve(), Ok(206));

    println!("Permutations tried for 206: {}", solver.permutation_count);
}

#[test]
fn bruteforce_test_complex_solution_4() {
    let mut solver = BruteForceSolver::new();
    let result = solver.solve(887, &[50, 25, 100, 3, 5, 8]);

    assert!(result.is_some());
    let equation = result.unwrap();
    assert_eq!(equation.solve(), Ok(887));

    println!("Permutations tried for 887: {}", solver.permutation_count);
    println!("Found equation: {}", equation.format());
}

#[test]
fn bruteforce_test_unsolvable_complex() {
    let mut solver = BruteForceSolver::new();
    let result = solver.solve(999, &[1, 2, 3, 4, 5, 6]);

    assert!(result.is_none());
    println!(
        "Permutations tried for unsolvable 999: {}",
        solver.permutation_count
    );
}
