//! Arithmetic expressions as right-nested chains, with exact integer evaluation.

use vstd::prelude::*;
use vstd::string::*;

verus! {

/// The four arithmetic operators.
#[derive(Debug, Clone, Copy, PartialEq, Eq, Structural)]
pub enum OpType {
    Add,
    Subtract,
    Multiply,
    Divide,
}

/// What follows the number of an expression node.
#[derive(Debug, PartialEq)]
pub enum Operation {
    Op(OpType, Box<Equation>),
    Terminate,
}

/// An expression node: `number` alone, or `number op rest`.
#[derive(Debug, PartialEq)]
pub struct Equation {
    pub number: i32,
    pub operation: Operation,
}

/// Why an expression has no value.
#[derive(Debug, Clone, Copy, PartialEq, Eq, Structural)]
pub enum SolverError {
    NonIntegerResult,
    DivisionByZero,
}

impl Clone for Operation {
    fn clone(&self) -> (copy: Self)
        ensures
            copy == *self,
        decreases *self,
    {
        match self {
            Operation::Terminate => Operation::Terminate,
            Operation::Op(op, next) => {
                let inner: &Equation = &**next;
                Operation::Op(*op, Box::new(inner.clone()))
            },
        }
    }
}

impl Clone for Equation {
    fn clone(&self) -> (copy: Self)
        ensures
            copy == *self,
        decreases *self,
    {
        Equation { number: self.number, operation: self.operation.clone() }
    }
}

impl SolverError {
    /// The error in words.
    pub fn message(&self) -> (text: &'static str)
        ensures
            text@ == (match *self {
                SolverError::NonIntegerResult => "Operation resulted in non-integer value"@,
                SolverError::DivisionByZero => "Division by zero attempted"@,
            }),
    {
        match self {
            SolverError::NonIntegerResult => "Operation resulted in non-integer value",
            SolverError::DivisionByZero => "Division by zero attempted",
        }
    }
}

/// The value of `left op right` over the mathematical integers. Division is
/// defined only where the divisor is nonzero and divides the dividend.
pub open spec fn apply(op: OpType, left: int, right: int) -> Result<int, SolverError> {
    match op {
        OpType::Add => Ok(left + right),
        OpType::Subtract => Ok(left - right),
        OpType::Multiply => Ok(left * right),
        OpType::Divide => if right == 0 {
            Err(SolverError::DivisionByZero)
        } else if left % right != 0 {
            Err(SolverError::NonIntegerResult)
        } else {
            Ok(left / right)
        },
    }
}

/// Whether `v` can be held in an `i32`.
pub open spec fn in_range(v: int) -> bool {
    i32::MIN <= v <= i32::MAX
}

/// A quotient that goes through without remainder is the Euclidean quotient.
pub proof fn lemma_exact_quotient(a: int, b: int, q: int)
    requires
        b != 0,
        a == b * q,
    ensures
        a % b == 0,
        a / b == q,
{
    assert(a % b == 0 && a / b == q) by (nonlinear_arith)
        requires
            b != 0,
            a == b * q,
    ;
}

/// Where the remainder is zero, the dividend is divisor times quotient.
pub proof fn lemma_exact_product(a: int, b: int)
    requires
        b != 0,
        a % b == 0,
    ensures
        a == b * (a / b),
{
    assert(a == b * (a / b)) by (nonlinear_arith)
        requires
            b != 0,
            a % b == 0,
    ;
}

/// The absolute value of an integer.
pub open spec fn magnitude(v: int) -> int {
    if v < 0 {
        -v
    } else {
        v
    }
}

/// Divisibility does not depend on the signs of dividend and divisor.
proof fn lemma_divides_by_magnitude(a: int, b: int)
    requires
        b != 0,
    ensures
        (a % b == 0) == (magnitude(a) % magnitude(b) == 0),
{
    if a % b == 0 {
        lemma_exact_product(a, b);
        let q = a / b;
        let k = if (a < 0) == (b < 0) { q } else { -q };
        assert(magnitude(a) == magnitude(b) * k) by (nonlinear_arith)
            requires
                a == b * q,
                k == (if (a < 0) == (b < 0) { q } else { -q }),
        ;
        lemma_exact_quotient(magnitude(a), magnitude(b), k);
    }
    if magnitude(a) % magnitude(b) == 0 {
        lemma_exact_product(magnitude(a), magnitude(b));
        let q = magnitude(a) / magnitude(b);
        let k = if (a < 0) == (b < 0) { q } else { -q };
        assert(a == b * k) by (nonlinear_arith)
            requires
                magnitude(a) == magnitude(b) * q,
                k == (if (a < 0) == (b < 0) { q } else { -q }),
        ;
        lemma_exact_quotient(a, b, k);
    }
}

/// The quotient of an exact division is the quotient of the magnitudes,
/// negative where the signs differ.
proof fn lemma_quotient_by_magnitude(a: int, b: int)
    requires
        b != 0,
        a % b == 0,
    ensures
        a / b == (if (a < 0) == (b < 0) {
            magnitude(a) / magnitude(b)
        } else {
            -(magnitude(a) / magnitude(b))
        }),
{
    lemma_divides_by_magnitude(a, b);
    lemma_exact_product(magnitude(a), magnitude(b));
    let q = magnitude(a) / magnitude(b);
    let k = if (a < 0) == (b < 0) { q } else { -q };
    assert(a == b * k) by (nonlinear_arith)
        requires
            magnitude(a) == magnitude(b) * q,
            k == (if (a < 0) == (b < 0) { q } else { -q }),
    ;
    lemma_exact_quotient(a, b, k);
}

/// `left / right` where it goes through without remainder.
fn exact_quotient(left: i32, right: i32) -> (q: Option<i64>)
    requires
        right != 0,
    ensures
        q is Some == (left as int % right as int == 0),
        q matches Some(v) ==> v == left as int / right as int,
{
    let x: i64 = left as i64;
    let y: i64 = right as i64;
    let ax: i64 = if x < 0 { -x } else { x };
    let ay: i64 = if y < 0 { -y } else { y };
    proof {
        lemma_divides_by_magnitude(left as int, right as int);
    }
    if ax % ay != 0 {
        return None;
    }
    let q: i64 = ax / ay;
    proof {
        lemma_quotient_by_magnitude(left as int, right as int);
        assert(0 <= q <= ax) by (nonlinear_arith)
            requires
                q == ax as int / ay as int,
                ax >= 0,
                ay > 0,
        ;
    }
    if (x < 0) == (y < 0) {
        Some(q)
    } else {
        Some(-q)
    }
}

/// The outcome of an operator on `i32` operands: `None` where the mathematical
/// result exists but cannot be held in an `i32`.
pub open spec fn apply_checked(op: OpType, left: int, right: int) -> Option<
    Result<int, SolverError>,
> {
    match apply(op, left, right) {
        Ok(v) => if in_range(v) {
            Some(Ok(v))
        } else {
            None
        },
        Err(e) => Some(Err(e)),
    }
}

/// An `i32` result read over the mathematical integers.
pub open spec fn widen(r: Result<i32, SolverError>) -> Result<int, SolverError> {
    match r {
        Ok(v) => Ok(v as int),
        Err(e) => Err(e),
    }
}

/// `left op right` with exact division; `None` where the result leaves the
/// range of `i32`.
pub fn compute(op: OpType, left: i32, right: i32) -> (r: Option<Result<i32, SolverError>>)
    ensures
        r is Some == apply_checked(op, left as int, right as int) is Some,
        r matches Some(x) ==> apply_checked(op, left as int, right as int) == Some(widen(x)),
{
    match op {
        OpType::Add => match left.checked_add(right) {
            Some(v) => Some(Ok(v)),
            None => None,
        },
        OpType::Subtract => match left.checked_sub(right) {
            Some(v) => Some(Ok(v)),
            None => None,
        },
        OpType::Multiply => match left.checked_mul(right) {
            Some(v) => Some(Ok(v)),
            None => None,
        },
        OpType::Divide => {
            if right == 0 {
                Some(Err(SolverError::DivisionByZero))
            } else {
                match exact_quotient(left, right) {
                    None => Some(Err(SolverError::NonIntegerResult)),
                    Some(q) => if q < -2147483648 || q > 2147483647 {
                        None
                    } else {
                        Some(Ok(q as i32))
                    },
                }
            }
        },
    }
}

impl Operation {
    /// The continuation `+ next`.
    pub fn add(next: Equation) -> (r: Self)
        ensures
            r == Operation::Op(OpType::Add, Box::new(next)),
    {
        Operation::Op(OpType::Add, Box::new(next))
    }

    /// The continuation `- next`.
    pub fn subtract(next: Equation) -> (r: Self)
        ensures
            r == Operation::Op(OpType::Subtract, Box::new(next)),
    {
        Operation::Op(OpType::Subtract, Box::new(next))
    }

    /// The continuation `* next`.
    pub fn multiply(next: Equation) -> (r: Self)
        ensures
            r == Operation::Op(OpType::Multiply, Box::new(next)),
    {
        Operation::Op(OpType::Multiply, Box::new(next))
    }

    /// The continuation `/ next`.
    pub fn divide(next: Equation) -> (r: Self)
        ensures
            r == Operation::Op(OpType::Divide, Box::new(next)),
    {
        Operation::Op(OpType::Divide, Box::new(next))
    }

    /// The continuation `op next`.
    pub fn with(op: OpType, next: Equation) -> (r: Self)
        ensures
            r == Operation::Op(op, Box::new(next)),
    {
        Operation::Op(op, Box::new(next))
    }
}

impl Equation {
    /// The value of the expression over the mathematical integers: the number
    /// of a terminal node, else `number op value(rest)`. An error in the rest
    /// is the error of the whole.
    pub open spec fn value(self) -> Result<int, SolverError>
        decreases self,
    {
        match self.operation {
            Operation::Terminate => Ok(self.number as int),
            Operation::Op(op, next) => match next.value() {
                Ok(v) => apply(op, self.number as int, v),
                Err(e) => Err(e),
            },
        }
    }

    /// Whether every intermediate result of the evaluation can be held in an
    /// `i32`.
    pub open spec fn fits(self) -> bool
        decreases self,
    {
        match self.operation {
            Operation::Terminate => true,
            Operation::Op(op, next) => next.fits() && (next.value() matches Ok(v) ==> apply_checked(
                op,
                self.number as int,
                v,
            ) is Some),
        }
    }

    /// The value where the evaluation succeeds and every intermediate result
    /// can be held in an `i32`.
    pub open spec fn outcome(self) -> Option<i32> {
        match self.value() {
            Ok(v) => if self.fits() {
                Some(v as i32)
            } else {
                None
            },
            Err(_) => None,
        }
    }

    /// The numbers of the chain from the first to the last.
    pub open spec fn numbers(self) -> Seq<i32>
        decreases self,
    {
        match self.operation {
            Operation::Terminate => seq![self.number],
            Operation::Op(_, next) => seq![self.number] + next.numbers(),
        }
    }

    /// The expression that stands `k` nodes in: the whole for `k == 0`, and
    /// the last node for every `k` beyond the end.
    pub open spec fn rest_after(self, k: nat) -> Equation
        decreases k,
    {
        if k == 0 {
            self
        } else {
            match self.operation {
                Operation::Terminate => self,
                Operation::Op(_, next) => next.rest_after((k - 1) as nat),
            }
        }
    }

    /// The expression `number operation`.
    pub fn new(number: i32, operation: Operation) -> (r: Self)
        ensures
            r == (Equation { number, operation }),
    {
        Self { number, operation }
    }

    /// The expression that is `number` alone.
    pub fn terminate(number: i32) -> (r: Self)
        ensures
            r == (Equation { number, operation: Operation::Terminate }),
            r.value() == Ok::<int, SolverError>(number as int),
            r.fits(),
    {
        Self { number, operation: Operation::Terminate }
    }

    /// Evaluates the expression. Division by zero and division with a
    /// remainder are errors; the innermost error is reported.
    pub fn solve(&self) -> (r: Result<i32, SolverError>)
        requires
            self.fits(),
        ensures
            widen(r) == self.value(),
        decreases self,
    {
        match &self.operation {
            Operation::Terminate => Ok(self.number),
            Operation::Op(op, next) => {
                let rest = next.solve()?;
                match op {
                    OpType::Add => Ok(self.number + rest),
                    OpType::Subtract => Ok(self.number - rest),
                    OpType::Multiply => Ok(self.number * rest),
                    OpType::Divide => {
                        if rest == 0 {
                            return Err(SolverError::DivisionByZero);
                        }
                        match exact_quotient(self.number, rest) {
                            None => Err(SolverError::NonIntegerResult),
                            Some(q) => Ok(q as i32),
                        }
                    },
                }
            },
        }
    }

    /// Evaluates the expression where every intermediate result can be held in
    /// an `i32`, and returns `None` where one cannot.
    pub fn checked_solve(&self) -> (r: Option<Result<i32, SolverError>>)
        ensures
            r is Some == self.fits(),
            r matches Some(x) ==> widen(x) == self.value(),
        decreases self,
    {
        match &self.operation {
            Operation::Terminate => Some(Ok(self.number)),
            Operation::Op(op, next) => match next.checked_solve() {
                None => None,
                Some(Err(e)) => Some(Err(e)),
                Some(Ok(rest)) => compute(*op, self.number, rest),
            },
        }
    }

    /// The rendering of the expression: a terminal node as its number in
    /// decimal, any other node as `(number op rest)`.
    pub open spec fn rendering(self) -> Seq<char>
        decreases self,
    {
        match self.operation {
            Operation::Terminate => decimal(self.number as int),
            Operation::Op(op, next) => seq!['('] + decimal(self.number as int) + seq![
                ' ',
                symbol(op),
                ' ',
            ] + next.rendering() + seq![')'],
        }
    }

    fn render_into(&self, out: &mut String)
        ensures
            final(out)@ == old(out)@ + self.rendering(),
        decreases self,
    {
        match &self.operation {
            Operation::Terminate => push_number(out, self.number),
            Operation::Op(op, next) => {
                proof {
                    reveal_strlit("(");
                    reveal_strlit(" ");
                    reveal_strlit(")");
                }
                out.append("(");
                push_number(out, self.number);
                out.append(" ");
                push_symbol(out, *op);
                out.append(" ");
                next.render_into(out);
                out.append(")");
                assert(out@ =~= old(out)@ + self.rendering());
            },
        }
    }

    /// The expression in text, every operation in parentheses.
    pub fn format(&self) -> (text: String)
        ensures
            text@ == self.rendering(),
    {
        let mut text = String::new();
        self.render_into(&mut text);
        assert(text@ =~= self.rendering());
        text
    }
}

/// The expression that is `number` alone.
pub open spec fn terminal(number: i32) -> Equation {
    Equation { number, operation: Operation::Terminate }
}

/// The expression `number op rest`.
pub open spec fn compose(number: i32, op: OpType, rest: Equation) -> Equation {
    Equation { number, operation: Operation::Op(op, Box::new(rest)) }
}

/// The value of `left op right` where it is defined and can be held in an
/// `i32`.
pub open spec fn combined_value(op: OpType, left: i32, right: i32) -> Option<i32> {
    match apply_checked(op, left as int, right as int) {
        Some(Ok(v)) => Some(v as i32),
        _ => None,
    }
}

/// The outcome of `number op rest`, given the outcome of `rest`.
pub open spec fn carry(op: OpType, number: i32, rest: Option<i32>) -> Option<i32> {
    match rest {
        Some(v) => combined_value(op, number, v),
        None => None,
    }
}

/// A value within `i32` is the value that the evaluation gives, and an
/// evaluation that fits has no value outside `i32`.
pub proof fn lemma_outcome_value(e: Equation)
    ensures
        e.fits() ==> (e.value() matches Ok(v) ==> in_range(v)),
        e.outcome() matches Some(r) ==> e.fits() && e.value() == Ok::<int, SolverError>(r as int),
        e.outcome() is None ==> !e.fits() || e.value() is Err,
    decreases e,
{
    match e.operation {
        Operation::Terminate => {},
        Operation::Op(op, next) => {
            lemma_outcome_value(*next);
        },
    }
}

/// The outcome of a composed expression follows from the outcome of its rest.
pub proof fn lemma_compose_outcome(number: i32, op: OpType, rest: Equation)
    ensures
        compose(number, op, rest).outcome() == carry(op, number, rest.outcome()),
{
    lemma_outcome_value(rest);
    lemma_outcome_value(compose(number, op, rest));
}

/// The outcome of `number op rest` from the outcome of `rest`.
pub fn carry_over(op: OpType, number: i32, rest: Option<i32>) -> (r: Option<i32>)
    ensures
        r == carry(op, number, rest),
{
    match rest {
        Some(v) => match compute(op, number, v) {
            Some(Ok(r)) => Some(r),
            _ => None,
        },
        None => None,
    }
}

/// Two results that are both the value of one expression are the same
/// result: evaluation is a function of the expression.
pub proof fn law_evaluation_deterministic(
    e: Equation,
    first: Result<i32, SolverError>,
    second: Result<i32, SolverError>,
)
    requires
        widen(first) == e.value(),
        widen(second) == e.value(),
    ensures
        first == second,
{
}

/// An error anywhere in the chain is the value of the whole expression.
pub proof fn law_error_surfaces(e: Equation, k: nat, error: SolverError)
    requires
        e.rest_after(k).value() == Err::<int, SolverError>(error),
    ensures
        e.value() == Err::<int, SolverError>(error),
    decreases k,
{
    if k > 0 {
        match e.operation {
            Operation::Terminate => {},
            Operation::Op(_, next) => {
                law_error_surfaces(*next, (k - 1) as nat, error);
            },
        }
    }
}

/// An expression that holds a division whose divisor evaluates to zero
/// evaluates to `DivisionByZero`.
pub proof fn law_division_by_zero(e: Equation, k: nat)
    requires
        e.rest_after(k).operation matches Operation::Op(OpType::Divide, divisor)
            && divisor.value() == Ok::<int, SolverError>(0),
    ensures
        e.value() == Err::<int, SolverError>(SolverError::DivisionByZero),
{
    law_error_surfaces(e, k, SolverError::DivisionByZero);
}

/// The character of a decimal digit.
pub open spec fn digit(d: int) -> char {
    if d == 0 {
        '0'
    } else if d == 1 {
        '1'
    } else if d == 2 {
        '2'
    } else if d == 3 {
        '3'
    } else if d == 4 {
        '4'
    } else if d == 5 {
        '5'
    } else if d == 6 {
        '6'
    } else if d == 7 {
        '7'
    } else if d == 8 {
        '8'
    } else {
        '9'
    }
}

/// The decimal digits of `n`, most significant first, without leading zeros.
pub open spec fn digits(n: nat) -> Seq<char>
    decreases n,
{
    if n < 10 {
        seq![digit(n as int)]
    } else {
        digits(n / 10).push(digit((n % 10) as int))
    }
}

/// An integer in decimal, with a leading `-` where it is negative.
pub open spec fn decimal(v: int) -> Seq<char> {
    if v < 0 {
        seq!['-'] + digits((-v) as nat)
    } else {
        digits(v as nat)
    }
}

/// The character that stands for an operator.
pub open spec fn symbol(op: OpType) -> char {
    match op {
        OpType::Add => '+',
        OpType::Subtract => '-',
        OpType::Multiply => '*',
        OpType::Divide => '/',
    }
}

fn push_digit(out: &mut String, d: u32)
    requires
        d < 10,
    ensures
        final(out)@ == old(out)@.push(digit(d as int)),
{
    proof {
        reveal_strlit("0");
        reveal_strlit("1");
        reveal_strlit("2");
        reveal_strlit("3");
        reveal_strlit("4");
        reveal_strlit("5");
        reveal_strlit("6");
        reveal_strlit("7");
        reveal_strlit("8");
        reveal_strlit("9");
    }
    if d == 0 {
        out.append("0");
    } else if d == 1 {
        out.append("1");
    } else if d == 2 {
        out.append("2");
    } else if d == 3 {
        out.append("3");
    } else if d == 4 {
        out.append("4");
    } else if d == 5 {
        out.append("5");
    } else if d == 6 {
        out.append("6");
    } else if d == 7 {
        out.append("7");
    } else if d == 8 {
        out.append("8");
    } else {
        out.append("9");
    }
    assert(out@ =~= old(out)@.push(digit(d as int)));
}

fn push_digits(out: &mut String, n: u32)
    ensures
        final(out)@ == old(out)@ + digits(n as nat),
    decreases n,
{
    if n >= 10 {
        push_digits(out, n / 10);
    }
    push_digit(out, n % 10);
    assert(out@ =~= old(out)@ + digits(n as nat));
}

fn push_number(out: &mut String, v: i32)
    ensures
        final(out)@ == old(out)@ + decimal(v as int),
{
    if v < 0 {
        proof {
            reveal_strlit("-");
        }
        out.append("-");
        let wide: i64 = -(v as i64);
        push_digits(out, wide as u32);
        assert(out@ =~= old(out)@ + decimal(v as int));
    } else {
        push_digits(out, v as u32);
    }
}

fn push_symbol(out: &mut String, op: OpType)
    ensures
        final(out)@ == old(out)@.push(symbol(op)),
{
    proof {
        reveal_strlit("+");
        reveal_strlit("-");
        reveal_strlit("*");
        reveal_strlit("/");
    }
    match op {
        OpType::Add => out.append("+"),
        OpType::Subtract => out.append("-"),
        OpType::Multiply => out.append("*"),
        OpType::Divide => out.append("/"),
    }
    assert(out@ =~= old(out)@.push(symbol(op)));
}

} // verus!
