//! The exhaustive search: every way to build a chain over the numbers of the
//! list, one step at a time, in a fixed order; the first chain that
//! evaluates to the target wins.
//!
//! Every number of a position has the expression that produced it. A step
//! combines two numbers of the position: the expression built for it is the
//! first number of the left operand's expression, the operator, and the
//! right operand's expression. The step is taken where the left operand is
//! a number of the list as it was given, so that no number is lost, and
//! where the expression built for it evaluates to the step's value. The
//! expression that is returned is therefore a chain that holds every number
//! of the list once.

use crate::chain::{found_equation, Chain};
use crate::equations::{
    carry_over, compose, lemma_compose_outcome, lemma_outcome_value, terminal, Equation,
    SolverError,
};
use crate::moves::{
    lemma_moves_offered, list_moves, moves, offered, reduced, remaining, Action,
};
use crate::position::Derivation;
use crate::solvers::capped;
use crate::solvers::chains::{
    chained, law_open_is_chained, lemma_hand_of_plain, lemma_search_open, same_numbers,
};
use std::rc::Rc;
use vstd::multiset::Multiset;
use vstd::prelude::*;
use vstd::seq_lib::{lemma_multiset_commutative, to_multiset_build, to_multiset_len};

verus! {

/// Each number with itself as its expression.
pub open spec fn plain(numbers: Seq<i32>) -> Seq<Equation> {
    Seq::new(numbers.len(), |i: int| terminal(numbers[i]))
}

/// The expression built for a step: the first number of the left operand's
/// expression, the operator, and the right operand's expression.
pub open spec fn candidate(expressions: Seq<Equation>, m: Action) -> Equation {
    compose(expressions[m.first as int].number, m.op, expressions[m.second as int])
}

/// Whether a step is taken: the numbers offer it, its left operand is a
/// number by itself, and the expression built for it evaluates to its value.
pub open spec fn taken(numbers: Seq<i32>, expressions: Seq<Equation>, m: Action) -> bool {
    &&& offered(numbers, m)
    &&& numbers.len() == expressions.len()
    &&& expressions[m.first as int].operation is Terminate
    &&& candidate(expressions, m).outcome() == Some(m.result)
}

/// The numbers after a step: the two operands are gone, the result stands
/// last.
pub open spec fn reduce(numbers: Seq<i32>, m: Action) -> Seq<i32> {
    remaining(numbers, m.first as int, m.second as int).push(m.result)
}

/// The expressions after a step, one for each number.
pub open spec fn derived(expressions: Seq<Equation>, m: Action) -> Seq<Equation> {
    remaining(expressions, m.first as int, m.second as int).push(candidate(expressions, m))
}

/// What the search finds: with one number left, its expression where the
/// number is the target and the expression evaluates to it; else what the
/// first step finds that is taken and finds anything.
pub open spec fn search(numbers: Seq<i32>, expressions: Seq<Equation>, target: i32) -> Option<
    Equation,
>
    decreases numbers.len(), 1nat, 0nat,
{
    if numbers.len() == 1 {
        if numbers[0] == target && expressions[0].outcome() == Some(target) {
            Some(expressions[0])
        } else {
            None
        }
    } else {
        search_from(numbers, expressions, target, moves(numbers), 0)
    }
}

/// What the steps `list[from]`, `list[from + 1]`, ... find, in this order.
pub open spec fn search_from(
    numbers: Seq<i32>,
    expressions: Seq<Equation>,
    target: i32,
    list: Seq<Action>,
    from: int,
) -> Option<Equation>
    decreases numbers.len(), 0nat, list.len() - from,
{
    if 0 <= from < list.len() {
        let m = list[from];
        if taken(numbers, expressions, m) {
            match search(reduce(numbers, m), derived(expressions, m), target) {
                Some(found) => Some(found),
                None => search_from(numbers, expressions, target, list, from + 1),
            }
        } else {
            search_from(numbers, expressions, target, list, from + 1)
        }
    } else {
        None
    }
}

/// The number of positions that the search visits, the first included.
pub open spec fn visited(numbers: Seq<i32>, expressions: Seq<Equation>, target: i32) -> nat
    decreases numbers.len(), 1nat, 0nat,
{
    if numbers.len() == 1 {
        1
    } else {
        1 + visited_from(numbers, expressions, target, moves(numbers), 0)
    }
}

/// The number of positions visited below the steps `list[from]`,
/// `list[from + 1]`, ..., up to the first step that finds something.
pub open spec fn visited_from(
    numbers: Seq<i32>,
    expressions: Seq<Equation>,
    target: i32,
    list: Seq<Action>,
    from: int,
) -> nat
    decreases numbers.len(), 0nat, list.len() - from,
{
    if 0 <= from < list.len() {
        let m = list[from];
        if taken(numbers, expressions, m) {
            let below = visited(reduce(numbers, m), derived(expressions, m), target);
            if search(reduce(numbers, m), derived(expressions, m), target) is Some {
                below
            } else {
                below + visited_from(numbers, expressions, target, list, from + 1)
            }
        } else {
            visited_from(numbers, expressions, target, list, from + 1)
        }
    } else {
        0
    }
}

/// Whether every number has an expression that evaluates to it.
pub open spec fn sound(numbers: Seq<i32>, expressions: Seq<Equation>) -> bool {
    &&& numbers.len() == expressions.len()
    &&& forall|i: int|
        0 <= i < numbers.len() ==> (#[trigger] expressions[i]).outcome() == Some(numbers[i])
}

/// The numbers of all the expressions, each as often as it occurs.
pub open spec fn all_numbers(expressions: Seq<Equation>) -> Multiset<i32>
    decreases expressions.len(),
{
    if expressions.len() == 0 {
        Multiset::empty()
    } else {
        all_numbers(expressions.drop_last()).add(expressions.last().numbers().to_multiset())
    }
}

/// The numbers of a list of expressions are those of one of them and those
/// of the others.
proof fn lemma_all_numbers_without(expressions: Seq<Equation>, k: int)
    requires
        0 <= k < expressions.len(),
    ensures
        all_numbers(expressions) == all_numbers(expressions.remove(k)).add(
            expressions[k].numbers().to_multiset(),
        ),
    decreases expressions.len(),
{
    if k == expressions.len() - 1 {
        assert(expressions.remove(k) =~= expressions.drop_last());
    } else {
        let front = expressions.drop_last();
        lemma_all_numbers_without(front, k);
        assert(expressions.remove(k).drop_last() =~= front.remove(k));
        assert(expressions.remove(k).last() == expressions.last());
        assert(all_numbers(expressions) =~= all_numbers(expressions.remove(k)).add(
            expressions[k].numbers().to_multiset(),
        ));
    }
}

/// The numbers as their own expressions hold the numbers.
pub proof fn lemma_all_numbers_of_plain(numbers: Seq<i32>)
    ensures
        all_numbers(plain(numbers)) == numbers.to_multiset(),
    decreases numbers.len(),
{
    if numbers.len() == 0 {
        to_multiset_len(numbers);
        assert(numbers.to_multiset() =~= Multiset::<i32>::empty());
    } else {
        let front = numbers.drop_last();
        let last = numbers.last();
        lemma_all_numbers_of_plain(front);
        assert(plain(numbers).drop_last() =~= plain(front));
        assert(numbers =~= front.push(last));
        to_multiset_build(front, last);
        to_multiset_build(Seq::<i32>::empty(), last);
        to_multiset_len(Seq::<i32>::empty());
        assert(Seq::<i32>::empty().push(last) =~= seq![last]);
        assert(Seq::<i32>::empty().to_multiset() =~= Multiset::<i32>::empty());
        assert(terminal(last).numbers() =~= seq![last]);
        assert(all_numbers(plain(numbers)) =~= numbers.to_multiset());
    }
}

/// A step that is taken keeps every number with an expression that
/// evaluates to it, and keeps the numbers that the expressions hold.
pub proof fn lemma_step_sound(numbers: Seq<i32>, expressions: Seq<Equation>, m: Action)
    requires
        sound(numbers, expressions),
        taken(numbers, expressions, m),
    ensures
        sound(reduce(numbers, m), derived(expressions, m)),
        all_numbers(derived(expressions, m)) == all_numbers(expressions),
{
    let i = m.first as int;
    let j = m.second as int;
    let built = candidate(expressions, m);
    let rest = remaining(expressions, i, j);
    let k = if j < i { j } else { j - 1 };
    assert(rest =~= expressions.remove(i).remove(k));
    assert(expressions.remove(i)[k] == expressions[j]);
    lemma_all_numbers_without(expressions, i);
    lemma_all_numbers_without(expressions.remove(i), k);
    assert(expressions[i].numbers() =~= seq![expressions[i].number]);
    assert(built.numbers() =~= expressions[i].numbers() + expressions[j].numbers());
    lemma_multiset_commutative(expressions[i].numbers(), expressions[j].numbers());
    assert(rest.push(built).drop_last() =~= rest);
    assert(all_numbers(rest.push(built)) =~= all_numbers(expressions));
}

/// What the search finds evaluates to the target, and holds the numbers
/// that the expressions of the position hold.
pub proof fn lemma_search_sound(numbers: Seq<i32>, expressions: Seq<Equation>, target: i32)
    requires
        sound(numbers, expressions),
    ensures
        search(numbers, expressions, target) matches Some(e) ==> e.outcome() == Some(target)
            && e.numbers().to_multiset() == all_numbers(expressions),
    decreases numbers.len(), 1nat, 0nat,
{
    if numbers.len() == 1 {
        assert(expressions.drop_last().len() == 0);
        assert(all_numbers(expressions.drop_last()) == Multiset::<i32>::empty());
        assert(expressions.last() == expressions[0]);
        assert(all_numbers(expressions) =~= expressions[0].numbers().to_multiset());
    } else {
        lemma_search_from_sound(numbers, expressions, target, moves(numbers), 0);
    }
}

proof fn lemma_search_from_sound(
    numbers: Seq<i32>,
    expressions: Seq<Equation>,
    target: i32,
    list: Seq<Action>,
    from: int,
)
    requires
        sound(numbers, expressions),
    ensures
        search_from(numbers, expressions, target, list, from) matches Some(e) ==> e.outcome()
            == Some(target) && e.numbers().to_multiset() == all_numbers(expressions),
    decreases numbers.len(), 0nat, list.len() - from,
{
    if 0 <= from < list.len() {
        let m = list[from];
        if taken(numbers, expressions, m) {
            lemma_step_sound(numbers, expressions, m);
            lemma_search_sound(reduce(numbers, m), derived(expressions, m), target);
        }
        lemma_search_from_sound(numbers, expressions, target, list, from + 1);
    }
}

/// With one number, the search finds the number itself where it is the
/// target, and nothing else.
pub proof fn law_single_number(x: i32, target: i32)
    ensures
        search(seq![x], plain(seq![x]), target) == (if x == target {
            Some(terminal(x))
        } else {
            None
        }),
{
    assert(seq![x][0] == x);
    lemma_outcome_value(terminal(x));
}

/// The expressions that the derivations stand for.
pub open spec fn equations_of(entries: Seq<Derivation>) -> Seq<Equation> {
    Seq::new(entries.len(), |i: int| entries[i].chain.equation())
}

/// Whether every derivation records the outcome of its expression.
pub open spec fn recorded(entries: Seq<Derivation>) -> bool {
    forall|i: int| 0 <= i < entries.len() ==> (#[trigger] entries[i]).wf()
}

/// The derivations without the positions `i` and `j`, followed by `fresh`.
fn reduced_entries(entries: &Vec<Derivation>, i: usize, j: usize, fresh: Derivation) -> (out: Vec<
    Derivation,
>)
    requires
        i < entries.len(),
        j < entries.len(),
        i != j,
    ensures
        out@ == remaining(entries@, i as int, j as int).push(fresh),
{
    let n = entries.len();
    let lo = if i < j { i } else { j };
    let hi = if i < j { j } else { i };
    let mut out: Vec<Derivation> = Vec::with_capacity(n - 1);
    let mut k: usize = 0;
    while k < n
        invariant
            n == entries.len(),
            lo < hi < n,
            k <= n,
            out@ == (if k <= lo {
                entries@.subrange(0, k as int)
            } else if k <= hi {
                entries@.subrange(0, lo as int) + entries@.subrange(lo + 1, k as int)
            } else {
                entries@.subrange(0, lo as int) + entries@.subrange(lo + 1, hi as int)
                    + entries@.subrange(hi + 1, k as int)
            }),
        decreases n - k,
    {
        if k != lo && k != hi {
            out.push(entries[k].share());
        }
        k += 1;
        assert(out@ =~= (if k <= lo {
            entries@.subrange(0, k as int)
        } else if k <= hi {
            entries@.subrange(0, lo as int) + entries@.subrange(lo + 1, k as int)
        } else {
            entries@.subrange(0, lo as int) + entries@.subrange(lo + 1, hi as int)
                + entries@.subrange(hi + 1, k as int)
        }));
    }
    assert(out@ =~= remaining(entries@, i as int, j as int));
    out.push(fresh);
    out
}

/// Whether the step is taken: its left operand is a number by itself, and
/// the expression built for the step evaluates to the step's value.
fn is_taken(entries: &Vec<Derivation>, m: &Action) -> (yes: bool)
    requires
        recorded(entries@),
        m.first < entries.len(),
        m.second < entries.len(),
    ensures
        yes == (equations_of(entries@)[m.first as int].operation is Terminate && candidate(
            equations_of(entries@),
            *m,
        ).outcome() == Some(m.result)),
{
    let left: &Chain = &*entries[m.first].chain;
    match left {
        Chain::Last(number) => {
            proof {
                lemma_compose_outcome(*number, m.op, equations_of(entries@)[m.second as int]);
            }
            match carry_over(m.op, *number, entries[m.second].outcome) {
                Some(v) => v == m.result,
                None => false,
            }
        },
        Chain::Link(_, _, _) => false,
    }
}

/// The derivation of a step's result.
fn build(entries: &Vec<Derivation>, m: &Action) -> (fresh: Derivation)
    requires
        recorded(entries@),
        m.first < entries.len(),
        m.second < entries.len(),
    ensures
        fresh.wf(),
        fresh.chain.equation() == candidate(equations_of(entries@), *m),
{
    let number = entries[m.first].chain.number();
    Derivation::extend(m.result, number, m.op, &entries[m.second])
}

/// The exhaustive search, with the number of positions it visited.
pub struct BruteForceSolver {
    pub permutation_count: u64,
}

impl Default for BruteForceSolver {
    fn default() -> (solver: Self)
        ensures
            solver.permutation_count == 0,
    {
        Self::new()
    }
}

impl BruteForceSolver {
    /// A solver that has visited nothing.
    pub fn new() -> (solver: Self)
        ensures
            solver.permutation_count == 0,
    {
        Self { permutation_count: 0 }
    }

    fn count(&mut self)
        ensures
            final(self).permutation_count == capped(old(self).permutation_count + 1),
    {
        if self.permutation_count < u64::MAX {
            self.permutation_count += 1;
        }
    }

    /// Searches for a chain that holds every number of `numbers` once and
    /// evaluates to `target`. It finds one exactly where there is one; it
    /// returns the first in the order of the steps. A combination whose
    /// value is no `i32` is not tried. The counter is set to the number of
    /// positions visited.
    pub fn solve(&mut self, target: i32, numbers: &[i32]) -> (solution: Option<Equation>)
        ensures
            solution is Some == chained(numbers@, target),
            solution == search(numbers@, plain(numbers@), target),
            solution matches Some(e) ==> same_numbers(e.numbers(), numbers@) && e.outcome() == Some(
                target,
            ) && e.fits() && e.value() == Ok::<int, SolverError>(target as int),
            final(self).permutation_count == capped(
                visited(numbers@, plain(numbers@), target) as int,
            ),
    {
        self.permutation_count = 0;
        match self.solve_recursive(target, numbers) {
            Some(chain) => Some(chain.to_equation()),
            None => None,
        }
    }

    fn solve_recursive(&mut self, target: i32, numbers: &[i32]) -> (found: Option<Rc<Chain>>)
        ensures
            found is Some == chained(numbers@, target),
            found_equation(found) == search(numbers@, plain(numbers@), target),
            found matches Some(chain) ==> same_numbers(chain.equation().numbers(), numbers@)
                && chain.equation().outcome() == Some(target) && chain.equation().fits()
                && chain.equation().value() == Ok::<int, SolverError>(target as int),
            final(self).permutation_count == capped(
                old(self).permutation_count + visited(numbers@, plain(numbers@), target),
            ),
    {
        let mut list: Vec<i32> = Vec::with_capacity(numbers.len());
        let mut entries: Vec<Derivation> = Vec::with_capacity(numbers.len());
        let mut i: usize = 0;
        while i < numbers.len()
            invariant
                i <= numbers.len(),
                list@ == numbers@.subrange(0, i as int),
                entries.len() == i,
                recorded(entries@),
                forall|k: int|
                    0 <= k < i ==> (#[trigger] entries[k]).chain.equation() == terminal(numbers[k]),
            decreases numbers.len() - i,
        {
            list.push(numbers[i]);
            entries.push(Derivation::of_number(numbers[i]));
            assert(list@ =~= numbers@.subrange(0, i + 1));
            i += 1;
        }
        proof {
            assert(list@ =~= numbers@);
            assert(equations_of(entries@) =~= plain(numbers@));
            let expressions = plain(numbers@);
            assert(sound(numbers@, expressions)) by {
                assert forall|k: int| 0 <= k < numbers@.len() implies (#[trigger] expressions[k]).outcome()
                    == Some(numbers@[k]) by {
                    lemma_outcome_value(terminal(numbers@[k]));
                }
            }
            assert(numbers@.len() == numbers.len());
            lemma_search_sound(numbers@, expressions, target);
            lemma_all_numbers_of_plain(numbers@);
            lemma_search_open(numbers@, expressions, target);
            lemma_hand_of_plain(numbers@);
            law_open_is_chained(numbers@, target);
            if search(numbers@, expressions, target) is Some {
                lemma_outcome_value(search(numbers@, expressions, target).unwrap());
            }
        }
        self.try_all_combinations_with_equations(target, &list, &entries)
    }

    fn try_all_combinations_with_equations(
        &mut self,
        target: i32,
        numbers: &Vec<i32>,
        entries: &Vec<Derivation>,
    ) -> (found: Option<Rc<Chain>>)
        requires
            numbers.len() == entries.len(),
            recorded(entries@),
        ensures
            found_equation(found) == search(numbers@, equations_of(entries@), target),
            final(self).permutation_count == capped(
                old(self).permutation_count + visited(numbers@, equations_of(entries@), target),
            ),
        decreases numbers.len(),
    {
        let ghost expressions = equations_of(entries@);
        self.count();
        if numbers.len() == 1 {
            if numbers[0] == target {
                match entries[0].outcome {
                    Some(v) => {
                        if v == target {
                            return Some(entries[0].chain.clone());
                        }
                    },
                    None => {},
                }
            }
            return None;
        }
        let list = list_moves(numbers);
        let pair = numbers.len() == 2;
        proof {
            assert(numbers@.len() == numbers.len());
            lemma_moves_offered(numbers@);
        }
        let ghost mut spent: nat = 1;
        let mut at: usize = 0;
        while at < list.len()
            invariant
                numbers.len() == entries.len(),
                recorded(entries@),
                numbers.len() != 1,
                pair == (numbers.len() == 2),
                expressions == equations_of(entries@),
                list@ == moves(numbers@),
                forall|k: int| 0 <= k < list.len() ==> offered(numbers@, #[trigger] list[k]),
                at <= list.len(),
                search_from(numbers@, expressions, target, list@, at as int) == search_from(
                    numbers@,
                    expressions,
                    target,
                    list@,
                    0,
                ),
                spent + visited_from(numbers@, expressions, target, list@, at as int) == 1
                    + visited_from(numbers@, expressions, target, list@, 0),
                self.permutation_count == capped(old(self).permutation_count + spent),
            decreases list.len() - at,
        {
            let m = list[at];
            let ghost next_numbers = reduce(numbers@, m);
            let ghost next_expressions = derived(expressions, m);
            if is_taken(entries, &m) {
                assert(taken(numbers@, expressions, m));
                if pair {
                    assert(next_numbers.len() == 1 && next_numbers[0] == m.result);
                    assert(next_expressions[0] == candidate(expressions, m));
                    assert(visited(next_numbers, next_expressions, target) == 1);
                    assert(search(next_numbers, next_expressions, target) == (if m.result
                        == target {
                        Some(candidate(expressions, m))
                    } else {
                        None
                    }));
                    self.count();
                    proof {
                        spent = spent + 1;
                    }
                    if m.result == target {
                        return Some(build(entries, &m).chain);
                    }
                } else {
                    let fresh = build(entries, &m);
                    let below_numbers = reduced(numbers, m.first, m.second, m.result);
                    let below_entries = reduced_entries(entries, m.first, m.second, fresh);
                    assert(equations_of(below_entries@) =~= next_expressions);
                    let found = self.try_all_combinations_with_equations(
                        target,
                        &below_numbers,
                        &below_entries,
                    );
                    proof {
                        spent = spent + visited(next_numbers, next_expressions, target);
                    }
                    if found.is_some() {
                        return found;
                    }
                }
            }
            at += 1;
        }
        None
    }
}

} // verus!
