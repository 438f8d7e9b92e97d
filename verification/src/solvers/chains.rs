//! Chains over the numbers of a list: the exhaustive search finds exactly
//! what one of them evaluates to.

use crate::equations::{
    combined_value, compose, lemma_compose_outcome, lemma_outcome_value, terminal, Equation,
    OpType, Operation,
};
use crate::moves::{lemma_moves_complete, moves, offered, remaining, Action};
use crate::solvers::bruteforce::{
    derived, lemma_all_numbers_of_plain, lemma_search_sound, lemma_step_sound, plain, reduce,
    search, search_from, sound, taken,
};
use vstd::multiset::Multiset;
use vstd::prelude::*;
use vstd::seq_lib::{to_multiset_build, to_multiset_contains, to_multiset_len, to_multiset_remove};

verus! {

/// Two lists hold the same numbers, each as often as the other.
pub open spec fn same_numbers(list: Seq<i32>, other: Seq<i32>) -> bool {
    list.to_multiset() == other.to_multiset()
}

/// Whether some chain that holds every number of the list once, in some
/// order and with some operators, evaluates to the target with every
/// intermediate result in `i32`.
pub open spec fn chained(numbers: Seq<i32>, target: i32) -> bool {
    exists|e: Equation| same_numbers(#[trigger] e.numbers(), numbers) && e.outcome() == Some(target)
}

/// A number of a position, and whether it stands as it was given.
pub struct Stand {
    pub value: i32,
    pub given: bool,
}

/// The numbers of a position with what the search reads of their expressions.
pub open spec fn hand_of(numbers: Seq<i32>, expressions: Seq<Equation>) -> Seq<Stand> {
    Seq::new(
        numbers.len(),
        |i: int| Stand { value: numbers[i], given: expressions[i].operation is Terminate },
    )
}

/// The numbers as they were given.
pub open spec fn given_hand(numbers: Seq<i32>) -> Seq<Stand> {
    Seq::new(numbers.len(), |i: int| Stand { value: numbers[i], given: true })
}

/// The values of a hand.
pub open spec fn values(hand: Seq<Stand>) -> Seq<i32> {
    Seq::new(hand.len(), |i: int| hand[i].value)
}

/// Whether a step can be taken from a hand: the values offer it and its
/// left operand stands as it was given.
pub open spec fn allowed(hand: Seq<Stand>, m: Action) -> bool {
    offered(values(hand), m) && hand[m.first as int].given
}

/// The hand after a step.
pub open spec fn after(hand: Seq<Stand>, m: Action) -> Seq<Stand> {
    remaining(hand, m.first as int, m.second as int).push(Stand { value: m.result, given: false })
}

/// Whether the target can be reached from a hand: one number is left and it
/// is the target, or some step that can be taken leads to a hand from which
/// it can be reached.
pub open spec fn open_to(hand: Seq<Stand>, target: i32) -> bool
    decreases hand.len(),
{
    if hand.len() == 1 {
        hand[0].value == target
    } else {
        exists|m: Action| allowed(hand, m) && open_to(#[trigger] after(hand, m), target)
    }
}

/// The hand of numbers that are their own expressions is the hand as given.
pub proof fn lemma_hand_of_plain(numbers: Seq<i32>)
    ensures
        hand_of(numbers, plain(numbers)) == given_hand(numbers),
{
    assert(hand_of(numbers, plain(numbers)) =~= given_hand(numbers));
}

/// Where every number has an expression that evaluates to it, a step that
/// the numbers offer is taken exactly where it is allowed, and leads to the
/// hand after it.
proof fn lemma_taken_is_allowed(numbers: Seq<i32>, expressions: Seq<Equation>, m: Action)
    requires
        sound(numbers, expressions),
        offered(numbers, m),
    ensures
        taken(numbers, expressions, m) == allowed(hand_of(numbers, expressions), m),
        hand_of(reduce(numbers, m), derived(expressions, m)) == after(
            hand_of(numbers, expressions),
            m,
        ),
        values(hand_of(numbers, expressions)) == numbers,
{
    let hand = hand_of(numbers, expressions);
    assert(values(hand) =~= numbers);
    let left = expressions[m.first as int];
    if left.operation is Terminate {
        lemma_outcome_value(left);
        assert(left.number == m.a);
        lemma_compose_outcome(m.a, m.op, expressions[m.second as int]);
    }
    assert(hand_of(reduce(numbers, m), derived(expressions, m)) =~= after(hand, m));
}

/// The search finds an expression exactly where the target can be reached
/// from the hand of the position.
pub proof fn lemma_search_open(numbers: Seq<i32>, expressions: Seq<Equation>, target: i32)
    requires
        sound(numbers, expressions),
        numbers.len() <= usize::MAX,
    ensures
        search(numbers, expressions, target) is Some == open_to(
            hand_of(numbers, expressions),
            target,
        ),
    decreases numbers.len(), 1nat, 0nat,
{
    let hand = hand_of(numbers, expressions);
    if numbers.len() != 1 {
        let list = moves(numbers);
        lemma_search_from_open(numbers, expressions, target, list, 0);
        assert(values(hand) =~= numbers);
        if open_to(hand, target) {
            let m = choose|m: Action| allowed(hand, m) && open_to(#[trigger] after(hand, m), target);
            lemma_moves_complete(numbers, m);
            let k = choose|k: int| 0 <= k < list.len() && #[trigger] list[k] == m;
            lemma_taken_is_allowed(numbers, expressions, m);
            assert(taken(numbers, expressions, list[k]));
        }
        if search(numbers, expressions, target) is Some {
            let k = choose|k: int|
                0 <= k < list.len() && taken(numbers, expressions, #[trigger] list[k]) && open_to(
                    hand_of(reduce(numbers, list[k]), derived(expressions, list[k])),
                    target,
                );
            lemma_taken_is_allowed(numbers, expressions, list[k]);
            assert(allowed(hand, list[k]) && open_to(after(hand, list[k]), target));
        }
    }
}

proof fn lemma_search_from_open(
    numbers: Seq<i32>,
    expressions: Seq<Equation>,
    target: i32,
    list: Seq<Action>,
    from: int,
)
    requires
        sound(numbers, expressions),
        numbers.len() <= usize::MAX,
        0 <= from,
    ensures
        search_from(numbers, expressions, target, list, from) is Some == (exists|k: int|
            from <= k < list.len() && taken(numbers, expressions, #[trigger] list[k]) && open_to(
                hand_of(reduce(numbers, list[k]), derived(expressions, list[k])),
                target,
            )),
    decreases numbers.len(), 0nat, list.len() - from,
{
    if from < list.len() {
        let m = list[from];
        lemma_search_from_open(numbers, expressions, target, list, from + 1);
        if taken(numbers, expressions, m) {
            lemma_step_sound(numbers, expressions, m);
            lemma_search_open(reduce(numbers, m), derived(expressions, m), target);
        }
        let here = taken(numbers, expressions, m) && open_to(
            hand_of(reduce(numbers, m), derived(expressions, m)),
            target,
        );
        if search_from(numbers, expressions, target, list, from) is Some && !here {
            let k = choose|k: int|
                from + 1 <= k < list.len() && taken(numbers, expressions, #[trigger] list[k])
                    && open_to(
                    hand_of(reduce(numbers, list[k]), derived(expressions, list[k])),
                    target,
                );
            assert(from <= k < list.len());
        }
    }
}

/// Taking two positions out of a list is taking out the one and then, where
/// it has moved to, the other.
proof fn lemma_remaining_in_steps<T>(list: Seq<T>, i: int, j: int)
    requires
        0 <= i < list.len(),
        0 <= j < list.len(),
        i != j,
    ensures
        remaining(list, i, j) == list.remove(i).remove(if j < i { j } else { j - 1 }),
        list.remove(i)[if j < i { j } else { j - 1 }] == list[j],
{
    let k = if j < i { j } else { j - 1 };
    assert(remaining(list, i, j) =~= list.remove(i).remove(k));
}

/// An element of one list has a position in a list that holds the same
/// elements.
proof fn lemma_position_in_other<T>(list: Seq<T>, other: Seq<T>, i: int) -> (p: int)
    requires
        list.to_multiset() == other.to_multiset(),
        0 <= i < list.len(),
    ensures
        0 <= p < other.len(),
        other[p] == list[i],
        list.remove(i).to_multiset() == other.remove(p).to_multiset(),
{
    let a = list[i];
    to_multiset_contains(list, a);
    to_multiset_contains(other, a);
    assert(list.contains(a));
    let p = choose|p: int| 0 <= p < other.len() && other[p] == a;
    to_multiset_remove(list, i);
    to_multiset_remove(other, p);
    p
}

/// Where two lists hold the same elements, two positions of the one have
/// their elements at two positions of the other, and the rest holds the
/// same elements too.
proof fn lemma_positions_in_other<T>(list: Seq<T>, other: Seq<T>, i: int, j: int) -> (found: (
    int,
    int,
))
    requires
        list.to_multiset() == other.to_multiset(),
        0 <= i < list.len(),
        0 <= j < list.len(),
        i != j,
    ensures
        0 <= found.0 < other.len(),
        0 <= found.1 < other.len(),
        found.0 != found.1,
        other[found.0] == list[i],
        other[found.1] == list[j],
        remaining(list, i, j).to_multiset() == remaining(other, found.0, found.1).to_multiset(),
{
    let p = lemma_position_in_other(list, other, i);
    let k = if j < i { j } else { j - 1 };
    lemma_remaining_in_steps(list, i, j);
    let q = lemma_position_in_other(list.remove(i), other.remove(p), k);
    let q_other = if q < p { q } else { q + 1 };
    lemma_remaining_in_steps(other, p, q_other);
    (p, q_other)
}

/// What can be reached from a hand does not depend on its order.
pub proof fn lemma_open_in_any_order(hand: Seq<Stand>, other: Seq<Stand>, target: i32)
    requires
        hand.to_multiset() == other.to_multiset(),
        hand.len() <= usize::MAX,
        open_to(hand, target),
    ensures
        open_to(other, target),
    decreases hand.len(),
{
    to_multiset_len(hand);
    to_multiset_len(other);
    if hand.len() == 1 {
        let p = lemma_position_in_other(hand, other, 0);
        assert(p == 0);
    } else {
        let m = choose|m: Action| allowed(hand, m) && open_to(#[trigger] after(hand, m), target);
        let (p, q) = lemma_positions_in_other(hand, other, m.first as int, m.second as int);
        let moved = Action {
            first: p as usize,
            second: q as usize,
            a: m.a,
            b: m.b,
            op: m.op,
            result: m.result,
        };
        assert(allowed(other, moved));
        let made = Stand { value: m.result, given: false };
        to_multiset_build(remaining(hand, m.first as int, m.second as int), made);
        to_multiset_build(remaining(other, p, q), made);
        assert(after(hand, m).to_multiset() == after(other, moved).to_multiset());
        lemma_open_in_any_order(after(hand, m), after(other, moved), target);
        assert(allowed(other, moved) && open_to(after(other, moved), target));
    }
}

/// Two multisets that hold an element and are the same without it are the
/// same.
proof fn lemma_same_with(one: Multiset<Stand>, other: Multiset<Stand>, stand: Stand)
    requires
        one.count(stand) > 0,
        other.count(stand) > 0,
        one.remove(stand) == other.remove(stand),
    ensures
        one == other,
{
    broadcast use vstd::multiset::group_multiset_axioms;

    assert forall|s: Stand| one.count(s) == other.count(s) by {
        let single = Multiset::singleton(stand);
        assert(one.remove(stand) == one.sub(single));
        assert(other.remove(stand) == other.sub(single));
        assert(single.count(s) == (if s == stand { 1nat } else { 0nat }));
        assert(one.sub(single).count(s) == other.sub(single).count(s));
    }
    assert(one =~= other);
}

/// Lists that hold the same numbers make hands that hold the same numbers.
proof fn lemma_given_hand_same(list: Seq<i32>, other: Seq<i32>)
    requires
        same_numbers(list, other),
    ensures
        given_hand(list).to_multiset() == given_hand(other).to_multiset(),
    decreases list.len(),
{
    to_multiset_len(list);
    to_multiset_len(other);
    if list.len() == 0 {
        assert(given_hand(list) =~= given_hand(other));
    } else {
        let last = list.len() - 1;
        let p = lemma_position_in_other(list, other, last);
        lemma_given_hand_same(list.remove(last), other.remove(p));
        let stand = Stand { value: list[last], given: true };
        assert(given_hand(list).remove(last) =~= given_hand(list.remove(last)));
        assert(given_hand(other).remove(p) =~= given_hand(other.remove(p)));
        to_multiset_remove(given_hand(list), last);
        to_multiset_remove(given_hand(other), p);
        to_multiset_contains(given_hand(list), stand);
        to_multiset_contains(given_hand(other), stand);
        assert(given_hand(list)[last] == stand);
        assert(given_hand(other)[p] == stand);
        assert(given_hand(list).contains(stand));
        assert(given_hand(other).contains(stand));
        lemma_same_with(given_hand(list).to_multiset(), given_hand(other).to_multiset(), stand);
    }
}

/// Where the target can be reached from a hand that ends in the value of a
/// chain, it can be reached from the hand with the numbers of the chain, as
/// given, in place of the value.
proof fn lemma_chain_unfolded(rest: Seq<Stand>, e: Equation, target: i32)
    requires
        e.outcome() matches Some(v) && open_to(
            rest.push(Stand { value: v, given: e.operation is Terminate }),
            target,
        ),
        rest.len() + e.numbers().len() <= usize::MAX,
    ensures
        open_to(rest + given_hand(e.numbers()), target),
    decreases e,
{
    let v = e.outcome().unwrap();
    match e.operation {
        Operation::Terminate => {
            lemma_outcome_value(e);
            assert(e.numbers() =~= seq![e.number]);
            assert(rest + given_hand(e.numbers()) =~= rest.push(Stand { value: v, given: true }));
        },
        Operation::Op(op, next) => {
            lemma_compose_outcome(e.number, op, *next);
            assert(e == compose(e.number, op, *next));
            let b = next.outcome().unwrap();
            let n = rest.len() as int;
            let left = Stand { value: e.number, given: true };
            let right = Stand { value: b, given: next.operation is Terminate };
            let both = rest.push(left).push(right);
            let m = Action {
                first: n as usize,
                second: (n + 1) as usize,
                a: e.number,
                b,
                op,
                result: v,
            };
            lemma_numbers_nonempty(*next);
            assert(values(both)[n] == e.number && values(both)[n + 1] == b);
            assert(allowed(both, m));
            assert(after(both, m) =~= rest.push(Stand { value: v, given: false }));
            assert(allowed(both, m) && open_to(after(both, m), target));
            assert(open_to(both, target));
            lemma_chain_unfolded(rest.push(left), *next, target);
            assert(rest + given_hand(e.numbers()) =~= rest.push(left) + given_hand(
                next.numbers(),
            ));
        },
    }
}

/// A chain has a number at least.
proof fn lemma_numbers_nonempty(e: Equation)
    ensures
        e.numbers().len() >= 1,
    decreases e,
{
    match e.operation {
        Operation::Terminate => {},
        Operation::Op(_, next) => {
            lemma_numbers_nonempty(*next);
        },
    }
}

/// From the numbers as given, the target can be reached exactly where a
/// chain that holds every number once evaluates to it.
pub proof fn law_open_is_chained(numbers: Seq<i32>, target: i32)
    requires
        numbers.len() <= usize::MAX,
    ensures
        open_to(given_hand(numbers), target) == chained(numbers, target),
{
    let expressions = plain(numbers);
    assert(sound(numbers, expressions)) by {
        assert forall|k: int| 0 <= k < numbers.len() implies (#[trigger] expressions[k]).outcome()
            == Some(numbers[k]) by {
            lemma_outcome_value(terminal(numbers[k]));
        }
    }
    lemma_hand_of_plain(numbers);
    if open_to(given_hand(numbers), target) {
        lemma_search_open(numbers, expressions, target);
        lemma_search_sound(numbers, expressions, target);
        lemma_all_numbers_of_plain(numbers);
        let e = search(numbers, expressions, target).unwrap();
        assert(same_numbers(e.numbers(), numbers) && e.outcome() == Some(target));
    }
    if chained(numbers, target) {
        let e = choose|e: Equation|
            same_numbers(#[trigger] e.numbers(), numbers) && e.outcome() == Some(target);
        to_multiset_len(numbers);
        to_multiset_len(e.numbers());
        let nothing = Seq::<Stand>::empty();
        let alone = nothing.push(Stand { value: target, given: e.operation is Terminate });
        assert(alone[0].value == target);
        assert(open_to(alone, target));
        lemma_chain_unfolded(nothing, e, target);
        assert(nothing + given_hand(e.numbers()) =~= given_hand(e.numbers()));
        lemma_given_hand_same(e.numbers(), numbers);
        lemma_open_in_any_order(given_hand(e.numbers()), given_hand(numbers), target);
    }
}

/// With two numbers, a chain evaluates to the target exactly where one
/// operator applied to the two, in one order or the other, gives the
/// target.
pub proof fn law_pair_chained(x: i32, y: i32, target: i32)
    ensures
        chained(seq![x, y], target) == (exists|op: OpType|
            #[trigger] combined_value(op, x, y) == Some(target) || combined_value(op, y, x) == Some(
                target,
            )),
{
    let numbers = seq![x, y];
    let hand = given_hand(numbers);
    law_open_is_chained(numbers, target);
    assert(values(hand) =~= numbers);
    assert(numbers[0] == x && numbers[1] == y);
    if open_to(hand, target) {
        let m = choose|m: Action| allowed(hand, m) && open_to(#[trigger] after(hand, m), target);
        assert(after(hand, m).len() == 1);
        assert(after(hand, m)[0].value == m.result);
        assert(combined_value(m.op, x, y) == Some(target) || combined_value(m.op, y, x) == Some(
            target,
        ));
    }
    if exists|op: OpType|
        #[trigger] combined_value(op, x, y) == Some(target) || combined_value(op, y, x) == Some(
            target,
        ) {
        let op = choose|op: OpType|
            #[trigger] combined_value(op, x, y) == Some(target) || combined_value(op, y, x) == Some(
                target,
            );
        let m = if combined_value(op, x, y) == Some(target) {
            Action { first: 0, second: 1, a: x, b: y, op, result: target }
        } else {
            Action { first: 1, second: 0, a: y, b: x, op, result: target }
        };
        assert(allowed(hand, m));
        assert(after(hand, m).len() == 1);
        assert(after(hand, m)[0].value == target);
        assert(open_to(after(hand, m), target));
    }
}

} // verus!
