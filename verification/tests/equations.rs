use countdown_numbers_game::{Equation, Operation, SolverError};

#[test]
fn test_terminate() {
    let eq = Equation::terminate(42);
    assert_eq!(eq.solve(), Ok(42));
}

#[test]
fn test_addition() {
    let eq = Equation::new(10, Operation::add(Equation::terminate(5)));
    assert_eq!(eq.solve(), Ok(15));
}

#[test]
fn test_subtraction() {
    let eq = Equation::new(10, Operation::subtract(Equation::terminate(3)));
    assert_eq!(eq.solve(), Ok(7));
}

#[test]
fn test_multiplication() {
    let eq = Equation::new(6, Operation::multiply(Equation::terminate(7)));
    assert_eq!(eq.solve(), Ok(42));
}

#[test]
fn test_division() {
    let eq = Equation::new(20, Operation::divide(Equation::terminate(4)));
    assert_eq!(eq.solve(), Ok(5));
}

#[test]
fn test_division_by_zero() {
    let eq = Equation::new(10, Operation::divide(Equation::terminate(0)));
    assert_eq!(eq.solve(), Err(SolverError::DivisionByZero));
}

#[test]
fn test_non_integer_division() {
    let eq = Equation::new(10, Operation::divide(Equation::terminate(3)));
    assert_eq!(eq.solve(), Err(SolverError::NonIntegerResult));
}

#[test]
fn test_complex_equation() {
    let eq = Equation::new(
        10,
        Operation::add(Equation::new(
            5,
            Operation::multiply(Equation::terminate(2)),
        )),
    );
    assert_eq!(eq.solve(), Ok(20));
}

#[test]
fn test_chained_operations() {
    let eq = Equation::new(
        100,
        Operation::subtract(Equation::new(
            25,
            Operation::add(Equation::new(50, Operation::divide(Equation::terminate(2)))),
        )),
    );
    assert_eq!(eq.solve(), Ok(50));
}

#[test]
fn test_error_propagation() {
    let eq = Equation::new(
        10,
        Operation::add(Equation::new(15, Operation::divide(Equation::terminate(0)))),
    );
    assert_eq!(eq.solve(), Err(SolverError::DivisionByZero));
}
