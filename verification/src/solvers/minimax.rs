//! The heuristic search: a depth-bounded search over the same steps that
//! scores positions by their distance to the target and keeps, at every
//! ply, the first branch with the best score.
//!
//! The search keeps one expression for a value, not for a number: where a
//! step gives a value that another number already has, the expression built
//! last stands for both, and the expressions of a step's operands are
//! forgotten even where equal numbers remain. The search is therefore no
//! exhaustive one: it can miss a target that can be reached, and the
//! expression it returns can use a number more often than the list holds it.
//!
//! Where the search stops at a position, the position hands up the
//! expression that scores what the position scores: where an expression
//! evaluates to the target, the first that does, whatever numbers are left
//! beside it; else the first of those that come closest. So the search
//! returns an expression exactly where it scores an exact match or above
//! the acceptance bound.

use crate::equations::{
    carry_over, compose, lemma_compose_outcome, lemma_outcome_value, terminal, Equation, OpType,
    Operation,
};
use crate::chain::{found_equation, Chain};
use crate::moves::{
    lemma_moves_offered, list_moves, moves, offered, reduced, remaining, Action,
};
use crate::position::{
    exchange, first_at, is_first, lemma_first_unique, locate, Board, Derivation, Position,
};
use crate::solvers::capped;
use std::rc::Rc;
use vstd::prelude::*;

verus! {

/// The score of a position in which an expression evaluates to the target.
pub const EXACT_MATCH_UTILITY: i32 = 1000;

/// The score of a position in which no expression evaluates: half of the
/// least `i32`.
pub const UTILITY_FLOOR: i32 = -1073741824;

/// A result is accepted where its score is above this bound.
pub const ACCEPTANCE_BOUND: i32 = -100;

/// The depth of a solver made without one.
pub const DEFAULT_DEPTH: usize = 6;

/// The expression that the heuristic search builds for a step. Of the left
/// operand's expression it keeps the first number and, where there is one,
/// the first operator and the second number; the right operand's expression
/// follows whole.
pub open spec fn grafted(pos: Position, m: Action) -> Equation {
    spliced(pos.expression(m.a), m.op, pos.expression(m.b))
}

/// The expression built from the expressions of two operands: the first
/// number of the left one and, where there is one, its first operator and
/// its second number, then the operator of the step and the right one.
pub open spec fn spliced(left: Equation, op: OpType, right: Equation) -> Equation {
    match left.operation {
        Operation::Terminate => compose(left.number, op, right),
        Operation::Op(first, inner) => compose(left.number, first, compose(inner.number, op, right)),
    }
}

/// The expression that stands for an operand: that of its derivation where
/// it has one, else its value alone.
pub open spec fn standing(found: Option<&Derivation>, v: i32) -> Equation {
    match found {
        Some(d) => d.chain.equation(),
        None => terminal(v),
    }
}

/// The position after a step: the first number equal to the left operand and
/// the first other number equal to the right operand are gone, the result
/// stands last, and the result's value has the expression built for the step.
pub open spec fn advance(pos: Position, m: Action) -> Position {
    let i = first_at(pos.numbers, m.a, None);
    let j = first_at(pos.numbers, m.b, Some(i));
    Position {
        numbers: remaining(pos.numbers, i, j).push(m.result),
        equations: pos.replaced(m, grafted(pos, m)),
    }
}

/// Whether the expression known for one of the numbers evaluates to the
/// target.
pub open spec fn hits(pos: Position, target: i32) -> bool {
    exists|i: int| 0 <= i < pos.numbers.len() && pos.known(#[trigger] pos.numbers[i]) == Some(target)
}

/// Whether the search stops at a position whatever depth is left.
pub open spec fn is_terminal(pos: Position, target: i32) -> bool {
    pos.numbers.len() <= 1 || hits(pos, target)
}

/// Whether the number at `at` wins the position: its expression evaluates,
/// and scores what the position scores.
pub open spec fn wins(pos: Position, target: i32, at: int) -> bool {
    &&& 0 <= at < pos.numbers.len()
    &&& pos.known(pos.numbers[at]) is Some
    &&& single_utility(pos.known(pos.numbers[at]), target) == utility(pos, target)
}

/// Whether `at` is the first number that wins the position.
pub open spec fn is_winner(pos: Position, target: i32, at: int) -> bool {
    wins(pos, target, at) && forall|k: int| 0 <= k < at ==> !#[trigger] wins(pos, target, k)
}

/// Whether a number wins the position.
pub open spec fn has_winner(pos: Position, target: i32) -> bool {
    exists|at: int| wins(pos, target, at)
}

/// The place of the first number that wins the position.
pub open spec fn winner(pos: Position, target: i32) -> int {
    choose|at: int| is_winner(pos, target, at)
}

/// The expression that a position hands up where the search stops at it:
/// that of the first number whose expression evaluates and scores what the
/// position scores. Where an expression evaluates to the target, that is
/// the first that does; else it is the first of the closest. Where no
/// expression evaluates, the position hands up none.
pub open spec fn handed_up(pos: Position, target: i32) -> Option<Equation> {
    if has_winner(pos, target) {
        Some(pos.equations[pos.numbers[winner(pos, target)]])
    } else {
        None
    }
}

/// There is one first winner at most.
pub proof fn lemma_winner_unique(pos: Position, target: i32, at: int)
    requires
        is_winner(pos, target, at),
    ensures
        has_winner(pos, target),
        winner(pos, target) == at,
{
    let other = winner(pos, target);
    assert(is_winner(pos, target, other));
    if other < at {
        assert(!wins(pos, target, other));
    }
    if at < other {
        assert(!wins(pos, target, at));
    }
}

/// Where a number wins, there is a first that does.
pub proof fn lemma_has_first_winner(pos: Position, target: i32, i: int)
    requires
        wins(pos, target, i),
    ensures
        has_winner(pos, target),
        is_winner(pos, target, winner(pos, target)),
    decreases i,
{
    if exists|k: int| 0 <= k < i && wins(pos, target, k) {
        let k = choose|k: int| 0 <= k < i && wins(pos, target, k);
        lemma_has_first_winner(pos, target, k);
    } else {
        assert(is_winner(pos, target, i));
        lemma_winner_unique(pos, target, i);
    }
}

/// A position that scores above the floor has a winner.
pub proof fn lemma_scored_has_winner(pos: Position, target: i32)
    requires
        utility(pos, target) > UTILITY_FLOOR,
    ensures
        has_winner(pos, target),
{
    if hits(pos, target) {
        let i = choose|i: int|
            0 <= i < pos.numbers.len() && pos.known(#[trigger] pos.numbers[i]) == Some(target);
        assert(wins(pos, target, i));
    } else {
        law_best_closeness(pos, target, pos.numbers.len() as int);
        let i = choose|i: int|
            0 <= i < pos.numbers.len() && (pos.known(#[trigger] pos.numbers[i]) matches Some(v)
                && closeness(target, v) == best_closeness(pos, target, pos.numbers.len() as int));
        assert(pos.known(pos.numbers[i]) != Some(target));
        assert(wins(pos, target, i));
    }
}

/// With one number, the position scores what the expression of the number
/// scores, and hands it up where it evaluates.
pub proof fn lemma_single_position(pos: Position, target: i32)
    requires
        pos.numbers.len() == 1,
    ensures
        utility(pos, target) == single_utility(pos.known(pos.numbers[0]), target),
        handed_up(pos, target) == (if pos.known(pos.numbers[0]) is Some {
            Some(pos.equations[pos.numbers[0]])
        } else {
            None
        }),
{
    let only = pos.numbers[0];
    assert(hits(pos, target) == (pos.known(only) == Some(target))) by {
        if hits(pos, target) {
            let i = choose|i: int|
                0 <= i < pos.numbers.len() && pos.known(#[trigger] pos.numbers[i]) == Some(target);
            assert(i == 0);
        }
        if pos.known(only) == Some(target) {
            assert(pos.known(pos.numbers[0]) == Some(target));
        }
    }
    assert(best_closeness(pos, target, 1) == (match pos.known(only) {
        Some(v) => closeness(target, v),
        None => UTILITY_FLOOR as int,
    })) by {
        reveal_with_fuel(best_closeness, 2);
    }
    if pos.known(only) is Some {
        assert(wins(pos, target, 0));
        assert(is_winner(pos, target, 0));
        lemma_winner_unique(pos, target, 0);
    } else {
        assert forall|at: int| !wins(pos, target, at) by {
            if wins(pos, target, at) {
                assert(at == 0);
            }
        }
    }
}

/// The score of a value that is not the target: its distance to the target,
/// negated, and not below the floor.
pub open spec fn closeness(target: i32, v: i32) -> int {
    let distance = if target - v < 0 {
        v - target
    } else {
        target - v
    };
    if -distance < UTILITY_FLOOR {
        UTILITY_FLOOR as int
    } else {
        -distance
    }
}

/// The score of the outcome of the only expression of a position.
pub open spec fn single_utility(outcome: Option<i32>, target: i32) -> int {
    match outcome {
        Some(v) => if v == target {
            EXACT_MATCH_UTILITY as int
        } else {
            closeness(target, v)
        },
        None => UTILITY_FLOOR as int,
    }
}

/// The best closeness among the first `upto` numbers whose expressions
/// evaluate.
pub open spec fn best_closeness(pos: Position, target: i32, upto: int) -> int
    decreases upto,
{
    if upto <= 0 {
        UTILITY_FLOOR as int
    } else {
        let before = best_closeness(pos, target, upto - 1);
        match pos.known(pos.numbers[upto - 1]) {
            Some(v) => if closeness(target, v) > before {
                closeness(target, v)
            } else {
                before
            },
            None => before,
        }
    }
}

/// The best closeness is the closeness of the closest value that the
/// expressions of the first `upto` numbers evaluate to, and the floor where
/// none evaluates.
pub proof fn law_best_closeness(pos: Position, target: i32, upto: int)
    requires
        0 <= upto <= pos.numbers.len(),
    ensures
        forall|i: int|
            0 <= i < upto ==> (pos.known(#[trigger] pos.numbers[i]) matches Some(v) ==> closeness(
                target,
                v,
            ) <= best_closeness(pos, target, upto)),
        best_closeness(pos, target, upto) == UTILITY_FLOOR || (exists|i: int|
            0 <= i < upto && (pos.known(#[trigger] pos.numbers[i]) matches Some(v) && closeness(
                target,
                v,
            ) == best_closeness(pos, target, upto))),
    decreases upto,
{
    if upto > 0 {
        law_best_closeness(pos, target, upto - 1);
        let before = best_closeness(pos, target, upto - 1);
        let now = best_closeness(pos, target, upto);
        if now != UTILITY_FLOOR {
            if now == before {
                let i = choose|i: int|
                    0 <= i < upto - 1 && (pos.known(#[trigger] pos.numbers[i]) matches Some(v)
                        && closeness(target, v) == before);
                assert(0 <= i < upto);
            } else {
                assert(pos.known(pos.numbers[upto - 1]) matches Some(v) && closeness(target, v)
                    == now);
            }
        }
    }
}

/// The score of a position.
pub open spec fn utility(pos: Position, target: i32) -> int {
    if hits(pos, target) {
        EXACT_MATCH_UTILITY as int
    } else {
        best_closeness(pos, target, pos.numbers.len() as int)
    }
}

/// The score of a branch and the expression that it hands up.
pub struct Rated {
    pub score: int,
    pub expression: Option<Equation>,
}

/// The better of two rated branches: the later one only where its score is
/// strictly greater.
pub open spec fn better(best: Rated, later: Rated) -> Rated {
    if later.score > best.score {
        later
    } else {
        best
    }
}

/// What the search hands up from a position with `depth` steps left.
pub open spec fn rate(pos: Position, target: i32, depth: nat) -> Rated
    decreases depth, 1nat, 0nat,
{
    if is_terminal(pos, target) || depth == 0 {
        Rated { score: utility(pos, target), expression: handed_up(pos, target) }
    } else {
        rate_from(
            pos,
            target,
            depth,
            moves(pos.numbers),
            0,
            Rated { score: i32::MIN as int, expression: None },
        )
    }
}

/// The best of `best` and the branches `list[from]`, `list[from + 1]`, ...
pub open spec fn rate_from(
    pos: Position,
    target: i32,
    depth: nat,
    list: Seq<Action>,
    from: int,
    best: Rated,
) -> Rated
    decreases depth, 0nat, list.len() - from,
{
    if 0 <= from < list.len() && depth > 0 {
        let branch = rate(advance(pos, list[from]), target, (depth - 1) as nat);
        rate_from(pos, target, depth, list, from + 1, better(best, branch))
    } else {
        best
    }
}

/// The number of positions that the search visits from a position, itself
/// included.
pub open spec fn explored(pos: Position, target: i32, depth: nat) -> nat
    decreases depth, 1nat, 0nat,
{
    if is_terminal(pos, target) || depth == 0 {
        1
    } else {
        1 + explored_from(pos, target, depth, moves(pos.numbers), 0)
    }
}

/// The number of positions visited below the branches `list[from]`,
/// `list[from + 1]`, ...
pub open spec fn explored_from(
    pos: Position,
    target: i32,
    depth: nat,
    list: Seq<Action>,
    from: int,
) -> nat
    decreases depth, 0nat, list.len() - from,
{
    if 0 <= from < list.len() && depth > 0 {
        explored(advance(pos, list[from]), target, (depth - 1) as nat) + explored_from(
            pos,
            target,
            depth,
            list,
            from + 1,
        )
    } else {
        0
    }
}

/// What is returned for a rated search: its expression where the score is
/// that of an exact match or above the acceptance bound.
pub open spec fn accepted(rated: Rated) -> Option<Equation> {
    if rated.score == EXACT_MATCH_UTILITY || rated.score > ACCEPTANCE_BOUND {
        rated.expression
    } else {
        None
    }
}

/// Whether the score of a rated branch is the score of its expression.
pub open spec fn consistent(rated: Rated, target: i32) -> bool {
    rated.expression matches Some(e) ==> rated.score == single_utility(e.outcome(), target)
}

/// Where the search hands up an expression, the score is that of the
/// expression's own outcome.
pub proof fn lemma_rate_consistent(pos: Position, target: i32, depth: nat)
    ensures
        consistent(rate(pos, target, depth), target),
    decreases depth, 1nat, 0nat,
{
    if is_terminal(pos, target) || depth == 0 {
        if has_winner(pos, target) {
            let i = choose|i: int| wins(pos, target, i);
            lemma_has_first_winner(pos, target, i);
        }
    } else {
        lemma_rate_from_consistent(
            pos,
            target,
            depth,
            moves(pos.numbers),
            0,
            Rated { score: i32::MIN as int, expression: None },
        );
    }
}

proof fn lemma_rate_from_consistent(
    pos: Position,
    target: i32,
    depth: nat,
    list: Seq<Action>,
    from: int,
    best: Rated,
)
    requires
        consistent(best, target),
    ensures
        consistent(rate_from(pos, target, depth, list, from, best), target),
    decreases depth, 0nat, list.len() - from,
{
    if 0 <= from < list.len() && depth > 0 {
        let branch = rate(advance(pos, list[from]), target, (depth - 1) as nat);
        lemma_rate_consistent(advance(pos, list[from]), target, (depth - 1) as nat);
        lemma_rate_from_consistent(pos, target, depth, list, from + 1, better(best, branch));
    }
}

/// An accepted expression evaluates, with every intermediate result in
/// `i32`, to the target or to a value less than 100 away from it.
pub proof fn lemma_accepted_close(rated: Rated, target: i32)
    requires
        consistent(rated, target),
    ensures
        accepted(rated) matches Some(e) ==> e.fits() && (e.value() matches Ok(v) && target - 100
            < v < target + 100),
{
    if accepted(rated) is Some {
        lemma_outcome_value(accepted(rated).unwrap());
    }
}

/// After a step, the result's value has the expression built for the step,
/// whatever expression that value had before; the operands' values have none
/// (unless the result is one of them), though equal numbers may remain; every
/// other value keeps what it had.
pub proof fn law_one_expression_per_value(pos: Position, m: Action, v: i32)
    ensures
        advance(pos, m).equations.contains_key(m.result),
        advance(pos, m).equations[m.result] == grafted(pos, m),
        v != m.result && (v == m.a || v == m.b) ==> !advance(pos, m).equations.contains_key(v),
        v != m.result && v != m.a && v != m.b ==> advance(pos, m).equations.contains_key(v)
            == pos.equations.contains_key(v) && (pos.equations.contains_key(v) ==> advance(
            pos,
            m,
        ).equations[v] == pos.equations[v]),
{
}

/// The expression that the last step hands up: the expression built for
/// the step, where it evaluates.
pub open spec fn last_handed(pos: Position, m: Action) -> Option<Equation> {
    if grafted(pos, m).outcome() is Some {
        Some(grafted(pos, m))
    } else {
        None
    }
}

/// A step from two numbers leaves the result alone, with the expression
/// built for the step: the search stops there and scores that expression.
pub proof fn lemma_last_step(pos: Position, m: Action, target: i32, depth: nat)
    requires
        pos.numbers.len() == 2,
        offered(pos.numbers, m),
    ensures
        advance(pos, m).numbers =~= seq![m.result],
        rate(advance(pos, m), target, depth) == (Rated {
            score: single_utility(grafted(pos, m).outcome(), target),
            expression: last_handed(pos, m),
        }),
        explored(advance(pos, m), target, depth) == 1,
{
    let numbers = pos.numbers;
    let i = m.first as int;
    let j = m.second as int;
    let other = if i == 0 { 1int } else { 0int };
    assert(j == other);
    let first = if numbers[0] == m.a { 0int } else { 1int };
    assert(is_first(numbers, m.a, None, first));
    lemma_first_unique(numbers, m.a, None, first);
    let second = if first == 0 { 1int } else { 0int };
    assert(numbers[second] == m.b);
    assert(is_first(numbers, m.b, Some(first), second));
    lemma_first_unique(numbers, m.b, Some(first), second);
    let next = advance(pos, m);
    assert(next.numbers =~= seq![m.result]);
    assert(next.equations[m.result] == grafted(pos, m));
    lemma_single_position(next, target);
}

/// Whether a rated branch that scores above the floor has an expression.
pub open spec fn scored(rated: Rated) -> bool {
    rated.score > UTILITY_FLOOR ==> rated.expression is Some
}

/// What the search hands up has an expression where it scores above the
/// floor.
pub proof fn lemma_rate_scored(pos: Position, target: i32, depth: nat)
    ensures
        scored(rate(pos, target, depth)),
    decreases depth, 1nat, 0nat,
{
    if is_terminal(pos, target) || depth == 0 {
        if utility(pos, target) > UTILITY_FLOOR {
            lemma_scored_has_winner(pos, target);
        }
    } else {
        lemma_rate_from_scored(
            pos,
            target,
            depth,
            moves(pos.numbers),
            0,
            Rated { score: i32::MIN as int, expression: None },
        );
    }
}

proof fn lemma_rate_from_scored(
    pos: Position,
    target: i32,
    depth: nat,
    list: Seq<Action>,
    from: int,
    best: Rated,
)
    requires
        scored(best),
    ensures
        scored(rate_from(pos, target, depth, list, from, best)),
    decreases depth, 0nat, list.len() - from,
{
    if 0 <= from < list.len() && depth > 0 {
        let branch = rate(advance(pos, list[from]), target, (depth - 1) as nat);
        lemma_rate_scored(advance(pos, list[from]), target, (depth - 1) as nat);
        lemma_rate_from_scored(pos, target, depth, list, from + 1, better(best, branch));
    }
}

/// What is returned: an expression exactly where the search scores an exact
/// match or above the acceptance bound, and one that evaluates to the
/// target exactly where the score is that of an exact match.
pub proof fn lemma_accepted(rated: Rated, target: i32)
    requires
        consistent(rated, target),
        scored(rated),
    ensures
        accepted(rated) is Some == (rated.score == EXACT_MATCH_UTILITY || rated.score
            > ACCEPTANCE_BOUND),
        accepted(rated) matches Some(e) ==> (e.outcome() == Some(target)) == (rated.score
            == EXACT_MATCH_UTILITY),
{
}

/// The outcome of the expression that is built from the derivations of two
/// operands.
fn splice_outcome(left: Option<&Derivation>, right: Option<&Derivation>, m: &Action) -> (outcome:
    Option<i32>)
    requires
        left matches Some(d) ==> d.wf(),
        right matches Some(d) ==> d.wf(),
    ensures
        outcome == spliced(standing(left, m.a), m.op, standing(right, m.b)).outcome(),
{
    let ghost follows = standing(right, m.b);
    let rest = match right {
        Some(d) => d.outcome,
        None => Some(m.b),
    };
    assert(rest == follows.outcome());
    match left {
        Some(d) => {
            let chain: &Chain = &*d.chain;
            match chain {
                Chain::Last(number) => {
                    proof {
                        lemma_compose_outcome(*number, m.op, follows);
                    }
                    carry_over(m.op, *number, rest)
                },
                Chain::Link(number, op, inner) => {
                    let second = inner.number();
                    proof {
                        lemma_compose_outcome(second, m.op, follows);
                        lemma_compose_outcome(*number, *op, compose(second, m.op, follows));
                    }
                    carry_over(*op, *number, carry_over(m.op, second, rest))
                },
            }
        },
        None => {
            proof {
                lemma_compose_outcome(m.a, m.op, follows);
            }
            carry_over(m.op, m.a, rest)
        },
    }
}

/// The derivation of a step's result as `grafted` builds it.
fn graft(board: &Board, m: &Action) -> (fresh: Derivation)
    requires
        board.wf(),
    ensures
        fresh.wf(),
        fresh.value == m.result,
        fresh.chain.equation() == grafted(board.position(), *m),
{
    let ghost pos = board.position();
    let right = match board.lookup(m.b) {
        Some(d) => d.share(),
        None => Derivation::of_number(m.b),
    };
    assert(right.chain.equation() == pos.expression(m.b));
    match board.lookup(m.a) {
        Some(d) => {
            let chain: &Chain = &*d.chain;
            match chain {
                Chain::Last(number) => Derivation::extend(m.result, *number, m.op, &right),
                Chain::Link(number, op, rest) => {
                    let inner = Derivation::extend(m.result, rest.number(), m.op, &right);
                    Derivation::extend(m.result, *number, *op, &inner)
                },
            }
        },
        None => Derivation::extend(m.result, m.a, m.op, &right),
    }
}

fn closeness_of(target: i32, v: i32) -> (score: i32)
    ensures
        score == closeness(target, v),
{
    let wide: i64 = target as i64 - v as i64;
    let distance: i64 = if wide < 0 {
        -wide
    } else {
        wide
    };
    if distance > 1073741824 {
        UTILITY_FLOOR
    } else {
        (-distance) as i32
    }
}

fn single_utility_of(outcome: Option<i32>, target: i32) -> (score: i32)
    ensures
        score == single_utility(outcome, target),
{
    match outcome {
        Some(v) => if v == target {
            EXACT_MATCH_UTILITY
        } else {
            closeness_of(target, v)
        },
        None => UTILITY_FLOOR,
    }
}

/// The outcome recorded for a number of the board.
fn known_of(board: &Board, v: i32) -> (outcome: Option<i32>)
    requires
        board.wf(),
    ensures
        outcome == board.position().known(v),
{
    match board.lookup(v) {
        Some(d) => d.outcome,
        None => None,
    }
}

/// The solver of the heuristic search, with the number of positions it
/// visited.
pub struct MinimaxSolver {
    pub nodes_explored: u64,
    pub target: i32,
    pub max_depth: usize,
}

impl Default for MinimaxSolver {
    fn default() -> (solver: Self)
        ensures
            solver.nodes_explored == 0,
            solver.target == 0,
            solver.max_depth == DEFAULT_DEPTH,
    {
        Self::new()
    }
}

impl MinimaxSolver {
    /// A solver of the default depth.
    pub fn new() -> (solver: Self)
        ensures
            solver.nodes_explored == 0,
            solver.target == 0,
            solver.max_depth == DEFAULT_DEPTH,
    {
        Self { nodes_explored: 0, target: 0, max_depth: DEFAULT_DEPTH }
    }

    /// A solver that searches `max_depth` steps ahead.
    pub fn with_depth(max_depth: usize) -> (solver: Self)
        ensures
            solver.nodes_explored == 0,
            solver.target == 0,
            solver.max_depth == max_depth,
    {
        Self { nodes_explored: 0, target: 0, max_depth }
    }

    fn count(&mut self)
        ensures
            final(self).nodes_explored == capped(old(self).nodes_explored + 1),
            final(self).target == old(self).target,
            final(self).max_depth == old(self).max_depth,
    {
        if self.nodes_explored < u64::MAX {
            self.nodes_explored += 1;
        }
    }

    /// The board after a step.
    fn apply_action(&self, board: &Board, m: &Action) -> (next: Board)
        requires
            board.wf(),
            offered(board.numbers@, *m),
        ensures
            next.wf(),
            next.position() == advance(board.position(), *m),
            next.numbers.len() == board.numbers.len() - 1,
    {
        let fresh = graft(board, m);
        let equations = exchange(&board.equations, m.a, m.b, fresh);
        let i = locate(&board.numbers, m.a, None, m.first);
        let other = if m.second != i {
            m.second
        } else {
            m.first
        };
        let j = locate(&board.numbers, m.b, Some(i), other);
        let numbers = reduced(&board.numbers, i, j, m.result);
        Board { numbers, equations }
    }

    fn is_terminal(&self, board: &Board) -> (done: bool)
        requires
            board.wf(),
        ensures
            done == is_terminal(board.position(), self.target),
    {
        if board.numbers.len() <= 1 {
            return true;
        }
        let mut i: usize = 0;
        while i < board.numbers.len()
            invariant
                board.wf(),
                i <= board.numbers.len(),
                forall|k: int|
                    0 <= k < i ==> board.position().known(#[trigger] board.numbers[k]) != Some(
                        self.target,
                    ),
            decreases board.numbers.len() - i,
        {
            match known_of(board, board.numbers[i]) {
                Some(v) => {
                    if v == self.target {
                        return true;
                    }
                },
                None => {},
            }
            i += 1;
        }
        false
    }

    /// The expression that the board hands up where the search stops at it;
    /// `score` is the score of the board.
    fn handed_up(&self, board: &Board, score: i32) -> (best: Option<Rc<Chain>>)
        requires
            board.wf(),
            score == utility(board.position(), self.target),
        ensures
            found_equation(best) == handed_up(board.position(), self.target),
    {
        let ghost pos = board.position();
        let mut i: usize = 0;
        while i < board.numbers.len()
            invariant
                board.wf(),
                pos == board.position(),
                score == utility(pos, self.target),
                i <= board.numbers.len(),
                forall|k: int| 0 <= k < i ==> !#[trigger] wins(pos, self.target, k),
            decreases board.numbers.len() - i,
        {
            match board.lookup(board.numbers[i]) {
                Some(d) => match d.outcome {
                    Some(v) => {
                        if single_utility_of(Some(v), self.target) == score {
                            proof {
                                assert(wins(pos, self.target, i as int));
                                lemma_winner_unique(pos, self.target, i as int);
                            }
                            return Some(d.chain.clone());
                        }
                    },
                    None => {},
                },
                None => {},
            }
            i += 1;
        }
        proof {
            assert forall|at: int| !wins(pos, self.target, at) by {}
        }
        None
    }

    fn utility(&self, board: &Board) -> (score: i32)
        requires
            board.wf(),
        ensures
            score == utility(board.position(), self.target),
    {
        let mut best = UTILITY_FLOOR;
        let mut i: usize = 0;
        while i < board.numbers.len()
            invariant
                board.wf(),
                i <= board.numbers.len(),
                forall|k: int|
                    0 <= k < i ==> board.position().known(#[trigger] board.numbers[k]) != Some(
                        self.target,
                    ),
                best == best_closeness(board.position(), self.target, i as int),
            decreases board.numbers.len() - i,
        {
            match known_of(board, board.numbers[i]) {
                Some(v) => {
                    if v == self.target {
                        return EXACT_MATCH_UTILITY;
                    }
                    let score = closeness_of(self.target, v);
                    if score > best {
                        best = score;
                    }
                },
                None => {},
            }
            i += 1;
        }
        best
    }

    /// Searches for an expression that evaluates to `target` or less than 100
    /// away from it, and returns one exactly where the search scores an exact
    /// match or above the acceptance bound. Where `target` is one of
    /// `numbers`, it is the answer, and nothing is searched. A combination whose value is no `i32` is not
    /// tried, and an expression with an intermediate result that is no `i32`
    /// counts as one that does not evaluate. The counter is set to the number
    /// of positions visited.
    pub fn solve(&mut self, target: i32, numbers: &[i32]) -> (solution: Option<Equation>)
        ensures
            final(self).max_depth == old(self).max_depth,
            final(self).target == target,
            solution matches Some(e) ==> e.fits() && (e.value() matches Ok(v) && target - 100 < v
                < target + 100),
            numbers@.contains(target) ==> solution == Some(terminal(target))
                && final(self).nodes_explored == 0,
            !numbers@.contains(target) ==> solution == accepted(
                rate(Position::start(numbers@), target, old(self).max_depth as nat),
            ) && final(self).nodes_explored == capped(
                explored(Position::start(numbers@), target, old(self).max_depth as nat) as int,
            ),
            !numbers@.contains(target) ==> solution is Some == ({
                let score = rate(
                    Position::start(numbers@),
                    target,
                    old(self).max_depth as nat,
                ).score;
                score == EXACT_MATCH_UTILITY || score > ACCEPTANCE_BOUND
            }),
            !numbers@.contains(target) ==> (solution matches Some(e) ==> (e.outcome() == Some(
                target,
            )) == (rate(Position::start(numbers@), target, old(self).max_depth as nat).score
                == EXACT_MATCH_UTILITY)),
    {
        self.nodes_explored = 0;
        self.target = target;
        let mut i: usize = 0;
        while i < numbers.len()
            invariant
                i <= numbers.len(),
                forall|k: int| 0 <= k < i ==> numbers[k] != target,
                self.nodes_explored == 0,
                self.target == target,
                self.max_depth == old(self).max_depth,
            decreases numbers.len() - i,
        {
            if numbers[i] == target {
                return Some(Equation::terminate(numbers[i]));
            }
            i += 1;
        }
        let board = Board::start(numbers);
        proof {
            let start = Position::start(numbers@);
            lemma_rate_consistent(start, target, self.max_depth as nat);
            lemma_rate_scored(start, target, self.max_depth as nat);
            lemma_accepted_close(rate(start, target, self.max_depth as nat), target);
            lemma_accepted(rate(start, target, self.max_depth as nat), target);
        }
        let (score, best) = self.minimax(&board, self.max_depth);
        if score == EXACT_MATCH_UTILITY || score > ACCEPTANCE_BOUND {
            match best {
                Some(chain) => Some(chain.to_equation()),
                None => None,
            }
        } else {
            None
        }
    }

    fn minimax(&mut self, board: &Board, depth: usize) -> (rated: (i32, Option<Rc<Chain>>))
        requires
            board.wf(),
        ensures
            final(self).target == old(self).target,
            final(self).max_depth == old(self).max_depth,
            (Rated { score: rated.0 as int, expression: found_equation(rated.1) }) == rate(
                board.position(),
                old(self).target,
                depth as nat,
            ),
            final(self).nodes_explored == capped(
                old(self).nodes_explored + explored(
                    board.position(),
                    old(self).target,
                    depth as nat,
                ),
            ),
        decreases depth,
    {
        let ghost pos = board.position();
        let ghost target = self.target;
        self.count();
        if self.is_terminal(board) || depth == 0 {
            let score = self.utility(board);
            let best = self.handed_up(board, score);
            return (score, best);
        }
        let list = list_moves(&board.numbers);
        proof {
            assert(board.numbers@.len() == board.numbers.len());
            lemma_moves_offered(board.numbers@);
        }
        let pair = board.numbers.len() == 2;
        let first = board.lookup(board.numbers[0]);
        let second = board.lookup(board.numbers[1]);
        let mut score = i32::MIN;
        let mut best: Option<Rc<Chain>> = None;
        let ghost mut spent: nat = 1;
        let mut at: usize = 0;
        while at < list.len()
            invariant
                board.wf(),
                pos == board.position(),
                depth > 0,
                pair == (board.numbers.len() == 2),
                board.numbers.len() >= 2,
                first matches Some(d) ==> d.wf(),
                second matches Some(d) ==> d.wf(),
                standing(first, board.numbers[0]) == pos.expression(board.numbers[0]),
                standing(second, board.numbers[1]) == pos.expression(board.numbers[1]),
                self.target == target,
                self.max_depth == old(self).max_depth,
                list@ == moves(board.numbers@),
                forall|k: int| 0 <= k < list.len() ==> offered(board.numbers@, #[trigger] list[k]),
                at <= list.len(),
                rate_from(
                    pos,
                    target,
                    depth as nat,
                    list@,
                    at as int,
                    Rated { score: score as int, expression: found_equation(best) },
                ) == rate_from(
                    pos,
                    target,
                    depth as nat,
                    list@,
                    0,
                    Rated { score: i32::MIN as int, expression: None },
                ),
                spent + explored_from(pos, target, depth as nat, list@, at as int) == 1
                    + explored_from(pos, target, depth as nat, list@, 0),
                self.nodes_explored == capped(old(self).nodes_explored + spent),
            decreases list.len() - at,
        {
            let m = list[at];
            if pair {
                proof {
                    lemma_last_step(pos, m, target, (depth - 1) as nat);
                    spent = spent + 1;
                }
                self.count();
                let outcome = if m.first == 0 {
                    splice_outcome(first, second, &m)
                } else {
                    splice_outcome(second, first, &m)
                };
                let branch_score = single_utility_of(outcome, self.target);
                if branch_score > score {
                    score = branch_score;
                    best = if outcome.is_some() {
                        Some(graft(board, &m).chain)
                    } else {
                        None
                    };
                }
            } else {
                let next = self.apply_action(board, &m);
                let (branch_score, branch) = self.minimax(&next, depth - 1);
                proof {
                    spent = spent + explored(next.position(), target, (depth - 1) as nat);
                }
                if branch_score > score {
                    score = branch_score;
                    best = branch;
                }
            }
            at += 1;
        }
        (score, best)
    }
}

} // verus!
