//! What the searches hold: the expression built for a number with its
//! outcome, and the position of the heuristic search, which keeps the
//! numbers that are still available and, by value, one expression each.

use crate::chain::Chain;
use crate::equations::{
    carry, carry_over, compose, lemma_compose_outcome, terminal, Equation, OpType,
};
use crate::moves::Action;
use std::collections::HashMap;
use std::rc::Rc;
use vstd::prelude::*;
use vstd::std_specs::hash::*;

verus! {

/// A search position: the available numbers in order, and the expressions
/// known for values. One value has at most one expression, whichever of the
/// available numbers it stands for.
pub struct Position {
    pub numbers: Seq<i32>,
    pub equations: Map<i32, Equation>,
}

/// Whether `at` is the first position that holds `v`, the position `skip`
/// left aside.
pub open spec fn is_first(numbers: Seq<i32>, v: i32, skip: Option<int>, at: int) -> bool {
    &&& 0 <= at < numbers.len()
    &&& skip != Some(at)
    &&& numbers[at] == v
    &&& forall|k: int| 0 <= k < at && skip != Some(k) ==> numbers[k] != v
}

/// The first position that holds `v`, the position `skip` left aside.
pub open spec fn first_at(numbers: Seq<i32>, v: i32, skip: Option<int>) -> int {
    choose|at: int| is_first(numbers, v, skip, at)
}

/// There is one first position at most.
pub proof fn lemma_first_unique(numbers: Seq<i32>, v: i32, skip: Option<int>, at: int)
    requires
        is_first(numbers, v, skip, at),
    ensures
        first_at(numbers, v, skip) == at,
{
    let other = first_at(numbers, v, skip);
    assert(is_first(numbers, v, skip, other));
    if other < at {
        assert(numbers[other] != v);
    }
    if at < other {
        assert(numbers[at] != v);
    }
}

impl Position {
    /// The position before any step: every number stands for itself.
    pub open spec fn start(numbers: Seq<i32>) -> Position {
        Position {
            numbers,
            equations: Map::new(|k: i32| numbers.contains(k), |k: i32| terminal(k)),
        }
    }

    /// The expression for an operand: the one known for its value, else the
    /// value alone.
    pub open spec fn expression(self, v: i32) -> Equation {
        if self.equations.contains_key(v) {
            self.equations[v]
        } else {
            terminal(v)
        }
    }

    /// The outcome of the expression known for `v`, if one is known and
    /// evaluates.
    pub open spec fn known(self, v: i32) -> Option<i32> {
        if self.equations.contains_key(v) {
            self.equations[v].outcome()
        } else {
            None
        }
    }

    /// The expressions after a step whose result got `combined`: those of the
    /// two operand values are gone, that of the result is `combined`.
    pub open spec fn replaced(self, m: Action, combined: Equation) -> Map<i32, Equation> {
        self.equations.remove(m.a).remove(m.b).insert(m.result, combined)
    }
}

/// The expression built for a value, with its outcome.
pub struct Derivation {
    pub value: i32,
    pub outcome: Option<i32>,
    pub chain: Rc<Chain>,
}

impl Derivation {
    /// The recorded outcome is that of the expression.
    pub open spec fn wf(&self) -> bool {
        self.outcome == self.chain.equation().outcome()
    }

    /// The derivation of a number that stands for itself.
    pub fn of_number(value: i32) -> (d: Derivation)
        ensures
            d.wf(),
            d.value == value,
            d.outcome == Some(value),
            d.chain.equation() == terminal(value),
    {
        Derivation { value, outcome: Some(value), chain: Rc::new(Chain::Last(value)) }
    }

    /// The derivation of `value` as `number op rest`.
    pub fn extend(value: i32, number: i32, op: OpType, rest: &Derivation) -> (d: Derivation)
        requires
            rest.wf(),
        ensures
            d.wf(),
            d.value == value,
            d.outcome == carry(op, number, rest.outcome),
            d.chain.equation() == compose(number, op, rest.chain.equation()),
    {
        proof {
            lemma_compose_outcome(number, op, rest.chain.equation());
        }
        Derivation {
            value,
            outcome: carry_over(op, number, rest.outcome),
            chain: Rc::new(Chain::Link(number, op, rest.chain.clone())),
        }
    }

    /// A second handle on the same derivation.
    pub fn share(&self) -> (d: Derivation)
        ensures
            d == *self,
    {
        Derivation { value: self.value, outcome: self.outcome, chain: self.chain.clone() }
    }
}

impl Clone for Derivation {
    fn clone(&self) -> (d: Self)
        ensures
            d == *self,
    {
        self.share()
    }
}

/// The expressions that a map of derivations holds, by value.
pub open spec fn table(held: Map<i32, Derivation>) -> Map<i32, Equation> {
    Map::new(|k: i32| held.contains_key(k), |k: i32| held[k].chain.equation())
}

/// Whether every derivation of the map records the outcome of its
/// expression.
pub open spec fn sound(held: Map<i32, Derivation>) -> bool {
    forall|k: i32| held.contains_key(k) ==> (#[trigger] held[k]).wf()
}

/// A position as a search holds it.
pub struct Board {
    pub numbers: Vec<i32>,
    pub equations: HashMap<i32, Derivation>,
}

/// A position read as an integer.
pub open spec fn widen_place(place: Option<usize>) -> Option<int> {
    match place {
        Some(k) => Some(k as int),
        None => None,
    }
}

/// The first position that holds `v`, the position `skip` left aside; `known`
/// is a position that does hold it.
pub fn locate(numbers: &Vec<i32>, v: i32, skip: Option<usize>, known: usize) -> (at: usize)
    requires
        known < numbers.len(),
        skip != Some(known),
        numbers[known as int] == v,
    ensures
        is_first(numbers@, v, widen_place(skip), at as int),
        at == first_at(numbers@, v, widen_place(skip)),
{
    let mut i: usize = 0;
    while i < known && (skip == Some(i) || numbers[i] != v)
        invariant
            i <= known < numbers.len(),
            forall|k: int| 0 <= k < i && widen_place(skip) != Some(k) ==> numbers[k] != v,
        decreases known - i,
    {
        i += 1;
    }
    proof {
        lemma_first_unique(numbers@, v, widen_place(skip), i as int);
    }
    i
}

/// The derivations after a step: those of the values `a` and `b` are
/// dropped, and `fresh` takes the place of any derivation of its value.
pub fn exchange(held: &HashMap<i32, Derivation>, a: i32, b: i32, fresh: Derivation) -> (out:
    HashMap<i32, Derivation>)
    requires
        sound(held@),
        fresh.wf(),
    ensures
        sound(out@),
        table(out@) == table(held@).remove(a).remove(b).insert(
            fresh.value,
            fresh.chain.equation(),
        ),
{
    broadcast use group_hash_axioms;

    let ghost built = fresh.chain.equation();
    let ghost value = fresh.value;
    let mut out = held.clone();
    out.remove(&a);
    out.remove(&b);
    out.insert(fresh.value, fresh);
    assert(table(out@) =~= table(held@).remove(a).remove(b).insert(value, built));
    out
}

impl Board {
    /// Each derivation records the outcome of its expression.
    pub open spec fn wf(&self) -> bool {
        sound(self.equations@)
    }

    /// The position that the board holds.
    pub open spec fn position(&self) -> Position {
        Position { numbers: self.numbers@, equations: table(self.equations@) }
    }

    /// The derivation kept for the value `v`, if there is one.
    pub fn lookup(&self, v: i32) -> (found: Option<&Derivation>)
        requires
            self.wf(),
        ensures
            match found {
                Some(d) => self.equations@.contains_key(v) && *d == self.equations@[v] && d.wf()
                    && self.position().equations.contains_key(v) && d.chain.equation()
                    == self.position().equations[v],
                None => !self.position().equations.contains_key(v),
            },
    {
        broadcast use group_hash_axioms;

        self.equations.get(&v)
    }

    /// The board before any step.
    pub fn start(numbers: &[i32]) -> (board: Board)
        ensures
            board.wf(),
            board.position() == Position::start(numbers@),
    {
        broadcast use group_hash_axioms;

        let mut list: Vec<i32> = Vec::with_capacity(numbers.len());
        let mut equations: HashMap<i32, Derivation> = HashMap::new();
        let mut i: usize = 0;
        while i < numbers.len()
            invariant
                i <= numbers.len(),
                list@ == numbers@.subrange(0, i as int),
                sound(equations@),
                forall|k: i32|
                    equations@.contains_key(k) ==> (#[trigger] equations@[k]).chain.equation()
                        == terminal(k),
                forall|k: i32|
                    equations@.contains_key(k) == numbers@.subrange(0, i as int).contains(k),
            decreases numbers.len() - i,
        {
            let v = numbers[i];
            list.push(v);
            let ghost seen = numbers@.subrange(0, i as int);
            let ghost next = numbers@.subrange(0, i + 1);
            assert(next =~= seen.push(v));
            equations.insert(v, Derivation::of_number(v));
            proof {
                assert forall|k: i32| equations@.contains_key(k) == next.contains(k) by {
                    lemma_contains_push(seen, v, k);
                }
            }
            assert(list@ =~= next);
            i += 1;
        }
        let board = Board { numbers: list, equations };
        proof {
            assert(numbers@.subrange(0, numbers.len() as int) =~= numbers@);
            assert(table(board.equations@) =~= Position::start(numbers@).equations);
        }
        board
    }
}

/// A list with one more number holds what it held, and that number.
proof fn lemma_contains_push(list: Seq<i32>, v: i32, k: i32)
    ensures
        list.push(v).contains(k) == (list.contains(k) || k == v),
{
    let longer = list.push(v);
    if list.contains(k) {
        let at = choose|at: int| 0 <= at < list.len() && list[at] == k;
        assert(longer[at] == k);
    }
    if k == v {
        assert(longer[list.len() as int] == k);
    }
    if longer.contains(k) {
        let at = choose|at: int| 0 <= at < longer.len() && longer[at] == k;
        if at < list.len() {
            assert(list[at] == k);
        }
    }
}

} // verus!
