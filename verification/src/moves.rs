//! The ways to combine two of the available numbers, in the order in which
//! both searches try them.

use crate::equations::{combined_value, compute, OpType};
use vstd::prelude::*;

verus! {

/// One combination step: the numbers at two different positions of the list,
/// an operator, and the value of `a op b`.
#[derive(Debug, Clone, Copy)]
pub struct Action {
    pub first: usize,
    pub second: usize,
    pub a: i32,
    pub b: i32,
    pub op: OpType,
    pub result: i32,
}

/// The step that combines positions `i` and `j` with `op`, where it is offered.
pub open spec fn step(numbers: Seq<i32>, i: int, j: int, op: OpType) -> Seq<Action> {
    match combined_value(op, numbers[i], numbers[j]) {
        Some(result) => seq![
            Action {
                first: i as usize,
                second: j as usize,
                a: numbers[i],
                b: numbers[j],
                op,
                result,
            },
        ],
        None => Seq::empty(),
    }
}

/// The steps for one ordered pair of positions: sum, difference, product,
/// quotient, in this order. A position is not combined with itself.
pub open spec fn pair_moves(numbers: Seq<i32>, i: int, j: int) -> Seq<Action> {
    if i == j {
        Seq::empty()
    } else {
        step(numbers, i, j, OpType::Add) + step(numbers, i, j, OpType::Subtract) + step(
            numbers,
            i,
            j,
            OpType::Multiply,
        ) + step(numbers, i, j, OpType::Divide)
    }
}

/// The steps for the pairs `(i, j)`, `(i, j + 1)`, ... of row `i`.
pub open spec fn row_moves(numbers: Seq<i32>, i: int, j: int) -> Seq<Action>
    decreases numbers.len() - j,
{
    if 0 <= j < numbers.len() {
        pair_moves(numbers, i, j) + row_moves(numbers, i, j + 1)
    } else {
        Seq::empty()
    }
}

/// The steps for the rows `i`, `i + 1`, ...
pub open spec fn moves_from(numbers: Seq<i32>, i: int) -> Seq<Action>
    decreases numbers.len() - i,
{
    if 0 <= i < numbers.len() {
        row_moves(numbers, i, 0) + moves_from(numbers, i + 1)
    } else {
        Seq::empty()
    }
}

/// Every step that the list offers: the ordered pairs of different positions
/// in ascending order of the first, then of the second position, each with
/// the operators in the order sum, difference, product, quotient.
pub open spec fn moves(numbers: Seq<i32>) -> Seq<Action> {
    moves_from(numbers, 0)
}

/// Whether a step belongs to the list: its positions differ and hold its
/// operands, and its result is the value of the combination.
pub open spec fn offered(numbers: Seq<i32>, m: Action) -> bool {
    &&& 0 <= m.first < numbers.len()
    &&& 0 <= m.second < numbers.len()
    &&& m.first != m.second
    &&& m.a == numbers[m.first as int]
    &&& m.b == numbers[m.second as int]
    &&& combined_value(m.op, m.a, m.b) == Some(m.result)
}

/// Whether every step of a list is offered.
pub open spec fn all_offered(numbers: Seq<i32>, list: Seq<Action>) -> bool {
    forall|k: int| 0 <= k < list.len() ==> offered(numbers, #[trigger] list[k])
}

proof fn lemma_offered_joined(numbers: Seq<i32>, front: Seq<Action>, back: Seq<Action>)
    requires
        all_offered(numbers, front),
        all_offered(numbers, back),
    ensures
        all_offered(numbers, front + back),
{
    assert forall|k: int| 0 <= k < (front + back).len() implies offered(
        numbers,
        #[trigger] (front + back)[k],
    ) by {
        if k < front.len() {
            assert((front + back)[k] == front[k]);
        } else {
            assert((front + back)[k] == back[k - front.len()]);
        }
    }
}

proof fn lemma_pair_offered(numbers: Seq<i32>, i: int, j: int)
    requires
        0 <= i < numbers.len() <= usize::MAX,
        0 <= j < numbers.len(),
    ensures
        all_offered(numbers, pair_moves(numbers, i, j)),
{
    if i != j {
        let sum = step(numbers, i, j, OpType::Add);
        let difference = step(numbers, i, j, OpType::Subtract);
        let product = step(numbers, i, j, OpType::Multiply);
        let quotient = step(numbers, i, j, OpType::Divide);
        assert(all_offered(numbers, sum));
        assert(all_offered(numbers, difference));
        assert(all_offered(numbers, product));
        assert(all_offered(numbers, quotient));
        lemma_offered_joined(numbers, sum, difference);
        lemma_offered_joined(numbers, sum + difference, product);
        lemma_offered_joined(numbers, sum + difference + product, quotient);
    }
}

/// Every step of a row is offered.
proof fn lemma_row_offered(numbers: Seq<i32>, i: int, j: int)
    requires
        0 <= i < numbers.len() <= usize::MAX,
        0 <= j,
    ensures
        all_offered(numbers, row_moves(numbers, i, j)),
    decreases numbers.len() - j,
{
    if j < numbers.len() {
        lemma_pair_offered(numbers, i, j);
        lemma_row_offered(numbers, i, j + 1);
        lemma_offered_joined(numbers, pair_moves(numbers, i, j), row_moves(numbers, i, j + 1));
    }
}

/// Every step of the rows from `i` on is offered.
proof fn lemma_rows_offered(numbers: Seq<i32>, i: int)
    requires
        0 <= i,
        numbers.len() <= usize::MAX,
    ensures
        all_offered(numbers, moves_from(numbers, i)),
    decreases numbers.len() - i,
{
    if i < numbers.len() {
        lemma_row_offered(numbers, i, 0);
        lemma_rows_offered(numbers, i + 1);
        lemma_offered_joined(numbers, row_moves(numbers, i, 0), moves_from(numbers, i + 1));
    }
}

/// Every step of the list is offered.
pub proof fn lemma_moves_offered(numbers: Seq<i32>)
    requires
        numbers.len() <= usize::MAX,
    ensures
        all_offered(numbers, moves(numbers)),
{
    lemma_rows_offered(numbers, 0);
}

/// Whether a list holds the step `m`.
pub open spec fn listed(list: Seq<Action>, m: Action) -> bool {
    exists|k: int| 0 <= k < list.len() && #[trigger] list[k] == m
}

proof fn lemma_listed_joined(front: Seq<Action>, back: Seq<Action>, m: Action)
    ensures
        listed(front + back, m) == (listed(front, m) || listed(back, m)),
{
    let whole = front + back;
    if listed(front, m) {
        let k = choose|k: int| 0 <= k < front.len() && #[trigger] front[k] == m;
        assert(whole[k] == m);
    }
    if listed(back, m) {
        let k = choose|k: int| 0 <= k < back.len() && #[trigger] back[k] == m;
        assert(whole[front.len() + k] == m);
    }
    if listed(whole, m) {
        let k = choose|k: int| 0 <= k < whole.len() && #[trigger] whole[k] == m;
        if k < front.len() {
            assert(front[k] == m);
        } else {
            assert(back[k - front.len()] == m);
        }
    }
}

proof fn lemma_offered_in_pair(numbers: Seq<i32>, m: Action)
    requires
        offered(numbers, m),
    ensures
        listed(pair_moves(numbers, m.first as int, m.second as int), m),
{
    let i = m.first as int;
    let j = m.second as int;
    let sum = step(numbers, i, j, OpType::Add);
    let difference = step(numbers, i, j, OpType::Subtract);
    let product = step(numbers, i, j, OpType::Multiply);
    let quotient = step(numbers, i, j, OpType::Divide);
    assert(step(numbers, i, j, m.op)[0] == m);
    assert(listed(step(numbers, i, j, m.op), m));
    lemma_listed_joined(sum, difference, m);
    lemma_listed_joined(sum + difference, product, m);
    lemma_listed_joined(sum + difference + product, quotient, m);
}

proof fn lemma_offered_in_row(numbers: Seq<i32>, m: Action, j: int)
    requires
        offered(numbers, m),
        0 <= j <= m.second,
    ensures
        listed(row_moves(numbers, m.first as int, j), m),
    decreases m.second - j,
{
    let i = m.first as int;
    lemma_listed_joined(pair_moves(numbers, i, j), row_moves(numbers, i, j + 1), m);
    if j == m.second {
        lemma_offered_in_pair(numbers, m);
    } else {
        lemma_offered_in_row(numbers, m, j + 1);
    }
}

proof fn lemma_offered_in_rows(numbers: Seq<i32>, m: Action, i: int)
    requires
        offered(numbers, m),
        0 <= i <= m.first,
    ensures
        listed(moves_from(numbers, i), m),
    decreases m.first - i,
{
    lemma_listed_joined(row_moves(numbers, i, 0), moves_from(numbers, i + 1), m);
    if i == m.first {
        lemma_offered_in_row(numbers, m, 0);
    } else {
        lemma_offered_in_rows(numbers, m, i + 1);
    }
}

/// The list holds exactly the steps that are offered.
pub proof fn lemma_moves_complete(numbers: Seq<i32>, m: Action)
    requires
        numbers.len() <= usize::MAX,
    ensures
        listed(moves(numbers), m) == offered(numbers, m),
{
    if offered(numbers, m) {
        lemma_offered_in_rows(numbers, m, 0);
    }
    if listed(moves(numbers), m) {
        lemma_moves_offered(numbers);
    }
}

/// The place of an operator in the order in which the operators are tried.
pub open spec fn rank(op: OpType) -> int {
    match op {
        OpType::Add => 0,
        OpType::Subtract => 1,
        OpType::Multiply => 2,
        OpType::Divide => 3,
    }
}

/// Whether the step `m` is tried before the step `later`: it has the smaller
/// first position, or the same first and the smaller second position, or
/// the same positions and the earlier operator.
pub open spec fn before(m: Action, later: Action) -> bool {
    ||| m.first < later.first
    ||| m.first == later.first && m.second < later.second
    ||| m.first == later.first && m.second == later.second && rank(m.op) < rank(later.op)
}

/// Whether every step of the list is tried before those behind it, and all
/// steps lie in row `row` or below, at `(row, column)` or behind it.
spec fn ascending_from(list: Seq<Action>, row: int, column: int) -> bool {
    &&& forall|k: int|
        0 <= k < list.len() ==> (#[trigger] list[k]).first > row || (list[k].first == row
            && list[k].second >= column)
    &&& forall|k: int, l: int| 0 <= k < l < list.len() ==> before(list[k], list[l])
}

proof fn lemma_pair_ascending(numbers: Seq<i32>, i: int, j: int)
    requires
        0 <= i < numbers.len() <= usize::MAX,
        0 <= j < numbers.len(),
    ensures
        ascending_from(pair_moves(numbers, i, j), i, j),
        forall|k: int|
            0 <= k < pair_moves(numbers, i, j).len() ==> (#[trigger] pair_moves(
                numbers,
                i,
                j,
            )[k]).first == i && pair_moves(numbers, i, j)[k].second == j,
{
    if i != j {
        let sum = step(numbers, i, j, OpType::Add);
        let difference = step(numbers, i, j, OpType::Subtract);
        let product = step(numbers, i, j, OpType::Multiply);
        let quotient = step(numbers, i, j, OpType::Divide);
        let list = pair_moves(numbers, i, j);
        assert forall|k: int| 0 <= k < list.len() implies (#[trigger] list[k]).first == i
            && list[k].second == j && rank(list[k].op) >= k && (k >= sum.len() ==> rank(
            list[k].op,
        ) >= 1) && (k >= sum.len() + difference.len() ==> rank(list[k].op) >= 2) && (k >= sum.len()
            + difference.len() + product.len() ==> rank(list[k].op) >= 3) && (k < sum.len()
            + difference.len() + product.len() ==> rank(list[k].op) <= 2) && (k < sum.len()
            + difference.len() ==> rank(list[k].op) <= 1) && (k < sum.len() ==> rank(list[k].op)
            <= 0) by {
            if k < sum.len() {
                assert(list[k] == sum[k]);
            } else if k < sum.len() + difference.len() {
                assert(list[k] == difference[k - sum.len()]);
            } else if k < sum.len() + difference.len() + product.len() {
                assert(list[k] == product[k - sum.len() - difference.len()]);
            } else {
                assert(list[k] == quotient[k - sum.len() - difference.len() - product.len()]);
            }
        }
    }
}

proof fn lemma_ascending_joined(front: Seq<Action>, back: Seq<Action>, row: int, column: int)
    requires
        ascending_from(front, row, column),
        ascending_from(back, row, column),
        forall|k: int, l: int|
            0 <= k < front.len() && 0 <= l < back.len() ==> before(
                #[trigger] front[k],
                #[trigger] back[l],
            ),
    ensures
        ascending_from(front + back, row, column),
{
    let whole = front + back;
    assert forall|k: int| 0 <= k < whole.len() implies (#[trigger] whole[k]).first > row || (
    whole[k].first == row && whole[k].second >= column) by {
        if k < front.len() {
            assert(whole[k] == front[k]);
        } else {
            assert(whole[k] == back[k - front.len()]);
        }
    }
    assert forall|k: int, l: int| 0 <= k < l < whole.len() implies before(whole[k], whole[l]) by {
        if l < front.len() {
            assert(whole[k] == front[k] && whole[l] == front[l]);
        } else if k < front.len() {
            assert(whole[k] == front[k] && whole[l] == back[l - front.len()]);
        } else {
            assert(whole[k] == back[k - front.len()] && whole[l] == back[l - front.len()]);
        }
    }
}

proof fn lemma_row_ascending(numbers: Seq<i32>, i: int, j: int)
    requires
        0 <= i < numbers.len() <= usize::MAX,
        0 <= j,
    ensures
        ascending_from(row_moves(numbers, i, j), i, j),
        forall|k: int|
            0 <= k < row_moves(numbers, i, j).len() ==> (#[trigger] row_moves(
                numbers,
                i,
                j,
            )[k]).first == i,
    decreases numbers.len() - j,
{
    if j < numbers.len() {
        let front = pair_moves(numbers, i, j);
        let back = row_moves(numbers, i, j + 1);
        lemma_pair_ascending(numbers, i, j);
        lemma_row_ascending(numbers, i, j + 1);
        assert(ascending_from(back, i, j));
        lemma_ascending_joined(front, back, i, j);
        assert forall|k: int| 0 <= k < (front + back).len() implies (#[trigger] (front
            + back)[k]).first == i by {
            if k < front.len() {
                assert((front + back)[k] == front[k]);
            } else {
                assert((front + back)[k] == back[k - front.len()]);
            }
        }
    }
}

proof fn lemma_rows_ascending(numbers: Seq<i32>, i: int)
    requires
        0 <= i,
        numbers.len() <= usize::MAX,
    ensures
        ascending_from(moves_from(numbers, i), i, 0),
    decreases numbers.len() - i,
{
    if i < numbers.len() {
        let front = row_moves(numbers, i, 0);
        let back = moves_from(numbers, i + 1);
        lemma_row_ascending(numbers, i, 0);
        lemma_rows_ascending(numbers, i + 1);
        assert(ascending_from(back, i, 0));
        lemma_ascending_joined(front, back, i, 0);
    }
}

/// The steps stand in the order in which they are tried: by first position,
/// then by second position, then by operator.
pub proof fn law_moves_ordered(numbers: Seq<i32>, k: int, l: int)
    requires
        numbers.len() <= usize::MAX,
        0 <= k < l < moves(numbers).len(),
    ensures
        before(moves(numbers)[k], moves(numbers)[l]),
{
    lemma_rows_ascending(numbers, 0);
}

fn push_step(list: &mut Vec<Action>, numbers: &Vec<i32>, i: usize, j: usize, op: OpType)
    requires
        i < numbers.len(),
        j < numbers.len(),
    ensures
        final(list)@ == old(list)@ + step(numbers@, i as int, j as int, op),
{
    let a = numbers[i];
    let b = numbers[j];
    match compute(op, a, b) {
        Some(Ok(result)) => {
            list.push(Action { first: i, second: j, a, b, op, result });
        },
        _ => {},
    }
    assert(list@ =~= old(list)@ + step(numbers@, i as int, j as int, op));
}

/// Lists every step that `numbers` offers.
pub fn list_moves(numbers: &Vec<i32>) -> (list: Vec<Action>)
    ensures
        list@ == moves(numbers@),
{
    let mut list: Vec<Action> = Vec::new();
    let n = numbers.len();
    let mut i: usize = 0;
    while i < n
        invariant
            n == numbers.len(),
            i <= n,
            list@ + moves_from(numbers@, i as int) == moves(numbers@),
        decreases n - i,
    {
        let ghost before = list@;
        let mut j: usize = 0;
        while j < n
            invariant
                n == numbers.len(),
                i < n,
                j <= n,
                list@ + row_moves(numbers@, i as int, j as int) == before + row_moves(
                    numbers@,
                    i as int,
                    0,
                ),
            decreases n - j,
        {
            let ghost row_before = list@;
            if i != j {
                push_step(&mut list, numbers, i, j, OpType::Add);
                push_step(&mut list, numbers, i, j, OpType::Subtract);
                push_step(&mut list, numbers, i, j, OpType::Multiply);
                push_step(&mut list, numbers, i, j, OpType::Divide);
            }
            assert(list@ =~= row_before + pair_moves(numbers@, i as int, j as int));
            assert(row_before + row_moves(numbers@, i as int, j as int) =~= list@ + row_moves(
                numbers@,
                i as int,
                j + 1,
            ));
            j += 1;
        }
        assert(list@ =~= before + row_moves(numbers@, i as int, 0));
        assert(before + moves_from(numbers@, i as int) =~= list@ + moves_from(
            numbers@,
            i + 1,
        ));
        i += 1;
    }
    assert(list@ =~= moves(numbers@));
    list
}

/// The list without the positions `i` and `j`, the rest in order.
pub open spec fn remaining<T>(list: Seq<T>, i: int, j: int) -> Seq<T> {
    if i < j {
        list.remove(j).remove(i)
    } else {
        list.remove(i).remove(j)
    }
}

/// The numbers without the positions `i` and `j`, followed by `result`.
pub fn reduced(numbers: &Vec<i32>, i: usize, j: usize, result: i32) -> (out: Vec<i32>)
    requires
        i < numbers.len(),
        j < numbers.len(),
        i != j,
    ensures
        out@ == remaining(numbers@, i as int, j as int).push(result),
        out.len() == numbers.len() - 1,
{
    let n = numbers.len();
    let lo = if i < j { i } else { j };
    let hi = if i < j { j } else { i };
    let mut out: Vec<i32> = Vec::with_capacity(n - 1);
    let mut k: usize = 0;
    while k < n
        invariant
            n == numbers.len(),
            lo < hi < n,
            k <= n,
            out@ == (if k <= lo {
                numbers@.subrange(0, k as int)
            } else if k <= hi {
                numbers@.subrange(0, lo as int) + numbers@.subrange(lo + 1, k as int)
            } else {
                numbers@.subrange(0, lo as int) + numbers@.subrange(lo + 1, hi as int)
                    + numbers@.subrange(hi + 1, k as int)
            }),
        decreases n - k,
    {
        let ghost before = out@;
        if k != lo && k != hi {
            out.push(numbers[k]);
        }
        k += 1;
        assert(out@ =~= (if k <= lo {
            numbers@.subrange(0, k as int)
        } else if k <= hi {
            numbers@.subrange(0, lo as int) + numbers@.subrange(lo + 1, k as int)
        } else {
            numbers@.subrange(0, lo as int) + numbers@.subrange(lo + 1, hi as int)
                + numbers@.subrange(hi + 1, k as int)
        }));
    }
    assert(out@ =~= remaining(numbers@, i as int, j as int));
    out.push(result);
    out
}

} // verus!
