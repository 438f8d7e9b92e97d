//! Puzzles of the numbers game: a list of large and small numbers and a
//! target, drawn at random or given.

use rand::rngs::ThreadRng;
use rand::seq::{IndexedRandom, IteratorRandom};
use rand::Rng;
use vstd::prelude::*;

verus! {

/// The generator of `rand` that is local to the thread.
#[verifier::external_type_specification]
#[verifier::external_body]
pub struct ExThreadRng(ThreadRng);

/// `rand::rng`: a handle on the thread's generator. Nothing is claimed of it.
pub assume_specification[ rand::rng ]() -> (rng: ThreadRng)
;

/// `IteratorRandom::choose` on the range `0..len`: a position below `len`,
/// and `None` only where the range is empty.
#[verifier::external_body]
fn pick_index(rng: &mut ThreadRng, len: usize) -> (picked: Option<usize>)
    ensures
        match picked {
            Some(i) => i < len,
            None => len == 0,
        },
{
    (0..len).choose(rng)
}

/// `IndexedRandom::choose` on a slice: one of its elements, and `None` only
/// where the slice is empty.
#[verifier::external_body]
fn pick_item(rng: &mut ThreadRng, items: &[i32]) -> (picked: Option<i32>)
    ensures
        match picked {
            Some(v) => items@.contains(v),
            None => items@.len() == 0,
        },
{
    items.choose(rng).copied()
}

/// `Rng::random_range` on `low..=high`: a value of the range. The call panics
/// on an empty range.
#[verifier::external_body]
fn draw_between(rng: &mut ThreadRng, low: i32, high: i32) -> (drawn: i32)
    requires
        low <= high,
    ensures
        low <= drawn <= high,
{
    rng.random_range(low..=high)
}

/// The smallest target of a puzzle.
pub const MIN_TARGET: i32 = 101;

/// The largest target of a puzzle.
pub const MAX_TARGET: i32 = 999;

/// The number of large numbers that there are.
pub const LARGE_POOL: usize = 4;

/// Whether `n` is one of the large numbers 25, 50, 75, 100.
pub open spec fn is_large(n: i32) -> bool {
    n == 25 || n == 50 || n == 75 || n == 100
}

/// Whether `n` is one of the small numbers 1 to 10.
pub open spec fn is_small(n: i32) -> bool {
    1 <= n <= 10
}

/// How many of the numbers are large.
pub open spec fn count_large(numbers: Seq<i32>) -> nat
    decreases numbers.len(),
{
    if numbers.len() == 0 {
        0
    } else {
        count_large(numbers.drop_last()) + (if is_large(numbers.last()) {
            1nat
        } else {
            0nat
        })
    }
}

/// How many of the numbers are small.
pub open spec fn count_small(numbers: Seq<i32>) -> nat
    decreases numbers.len(),
{
    if numbers.len() == 0 {
        0
    } else {
        count_small(numbers.drop_last()) + (if is_small(numbers.last()) {
            1nat
        } else {
            0nat
        })
    }
}

/// There are no more large or small numbers than numbers.
pub proof fn lemma_counts_bounded(numbers: Seq<i32>)
    ensures
        count_large(numbers) + count_small(numbers) <= numbers.len(),
    decreases numbers.len(),
{
    if numbers.len() > 0 {
        lemma_counts_bounded(numbers.drop_last());
    }
}

/// The numbers as the generator draws them: first `large` different large
/// numbers, then `small` small numbers.
pub open spec fn drawn(numbers: Seq<i32>, large: int, small: int) -> bool {
    &&& numbers.len() == large + small
    &&& forall|i: int| 0 <= i < large ==> is_large(#[trigger] numbers[i])
    &&& forall|i: int, j: int| 0 <= i < j < large ==> numbers[i] != numbers[j]
    &&& forall|i: int| large <= i < numbers.len() ==> is_small(#[trigger] numbers[i])
}

/// The counts of numbers that are drawn as the generator draws them.
pub proof fn lemma_drawn_counts(numbers: Seq<i32>, large: int, small: int)
    requires
        0 <= large,
        0 <= small,
        drawn(numbers, large, small),
    ensures
        count_large(numbers) == large,
        count_small(numbers) == small,
    decreases numbers.len(),
{
    if numbers.len() > 0 {
        let front = numbers.drop_last();
        if small > 0 {
            assert(is_small(numbers[numbers.len() - 1]));
            assert(drawn(front, large, small - 1)) by {
                assert forall|i: int| 0 <= i < large implies is_large(#[trigger] front[i]) by {
                    assert(front[i] == numbers[i]);
                }
                assert forall|i: int| large <= i < front.len() implies is_small(
                    #[trigger] front[i],
                ) by {
                    assert(front[i] == numbers[i]);
                }
            }
            lemma_drawn_counts(front, large, small - 1);
        } else {
            assert(is_large(numbers[numbers.len() - 1]));
            assert(drawn(front, large - 1, 0)) by {
                assert forall|i: int| 0 <= i < large - 1 implies is_large(#[trigger] front[i]) by {
                    assert(front[i] == numbers[i]);
                }
            }
            lemma_drawn_counts(front, large - 1, 0);
        }
    }
}

fn large(n: i32) -> (yes: bool)
    ensures
        yes == is_large(n),
{
    n == 25 || n == 50 || n == 75 || n == 100
}

fn small(n: i32) -> (yes: bool)
    ensures
        yes == is_small(n),
{
    1 <= n && n <= 10
}

/// A puzzle: the numbers to combine, the target, and how the numbers divide
/// into large and small ones.
#[derive(Debug)]
pub struct Puzzle {
    pub numbers: Vec<i32>,
    pub target: i32,
    pub large_count: usize,
    pub max_numbers: usize,
}

impl Clone for Puzzle {
    fn clone(&self) -> (copy: Self)
        ensures
            copy.numbers@ == self.numbers@,
            copy.target == self.target,
            copy.large_count == self.large_count,
            copy.max_numbers == self.max_numbers,
    {
        let numbers = self.numbers.clone();
        assert(numbers@ =~= self.numbers@);
        Puzzle {
            numbers,
            target: self.target,
            large_count: self.large_count,
            max_numbers: self.max_numbers,
        }
    }
}

impl Puzzle {
    /// Whether the puzzle is one of the game: as many numbers as it says, a
    /// target of three digits above 100, at most four large numbers, and
    /// large and small numbers in the counts it says.
    pub open spec fn valid(&self) -> bool {
        &&& self.numbers.len() == self.max_numbers
        &&& MIN_TARGET <= self.target <= MAX_TARGET
        &&& self.large_count <= LARGE_POOL
        &&& count_large(self.numbers@) == self.large_count
        &&& count_small(self.numbers@) == self.max_numbers - self.large_count
    }

    /// The puzzle of the given numbers and target.
    pub fn new(numbers: Vec<i32>, target: i32) -> (puzzle: Self)
        ensures
            puzzle.numbers == numbers,
            puzzle.target == target,
            puzzle.large_count == count_large(numbers@),
            puzzle.max_numbers == numbers.len(),
    {
        let mut large_count: usize = 0;
        let mut i: usize = 0;
        while i < numbers.len()
            invariant
                i <= numbers.len(),
                large_count == count_large(numbers@.subrange(0, i as int)),
                large_count <= i,
            decreases numbers.len() - i,
        {
            assert(numbers@.subrange(0, i + 1).drop_last() =~= numbers@.subrange(0, i as int));
            if large(numbers[i]) {
                large_count += 1;
            }
            i += 1;
        }
        assert(numbers@.subrange(0, numbers.len() as int) =~= numbers@);
        let max_numbers = numbers.len();
        Self { numbers, target, large_count, max_numbers }
    }

    /// The number of small numbers that the puzzle says it has.
    pub fn small_count(&self) -> (count: usize)
        requires
            self.large_count <= self.max_numbers,
        ensures
            count == self.max_numbers - self.large_count,
    {
        self.max_numbers - self.large_count
    }

    /// Whether the puzzle is one of the game.
    pub fn is_valid(&self) -> (yes: bool)
        ensures
            yes == self.valid(),
    {
        if self.numbers.len() != self.max_numbers {
            return false;
        }
        if self.target < MIN_TARGET || self.target > MAX_TARGET {
            return false;
        }
        if self.large_count > LARGE_POOL {
            return false;
        }
        let mut large_numbers: usize = 0;
        let mut small_numbers: usize = 0;
        let mut i: usize = 0;
        while i < self.numbers.len()
            invariant
                i <= self.numbers.len(),
                large_numbers == count_large(self.numbers@.subrange(0, i as int)),
                small_numbers == count_small(self.numbers@.subrange(0, i as int)),
                large_numbers + small_numbers <= i,
            decreases self.numbers.len() - i,
        {
            assert(self.numbers@.subrange(0, i + 1).drop_last() =~= self.numbers@.subrange(
                0,
                i as int,
            ));
            proof {
                lemma_counts_bounded(self.numbers@.subrange(0, i + 1));
            }
            if large(self.numbers[i]) {
                large_numbers += 1;
            }
            if small(self.numbers[i]) {
                small_numbers += 1;
            }
            i += 1;
        }
        assert(self.numbers@.subrange(0, self.numbers.len() as int) =~= self.numbers@);
        large_numbers == self.large_count && small_numbers == self.small_count()
    }
}

/// Draws puzzles at random.
pub struct PuzzleGenerator {
    rng: ThreadRng,
}

impl Default for PuzzleGenerator {
    fn default() -> Self {
        Self::new()
    }
}

/// The smaller of a count and the number of large numbers there are.
pub open spec fn pool_limited(large_count: usize) -> int {
    if large_count <= LARGE_POOL {
        large_count as int
    } else {
        LARGE_POOL as int
    }
}

impl PuzzleGenerator {
    /// A generator on the thread's source of randomness.
    pub fn new() -> Self {
        Self { rng: rand::rng() }
    }

    /// `large_count` large numbers, each at most once and no more than there
    /// are, then small numbers up to `max_numbers` less `large_count`.
    fn draw_numbers(&mut self, large_count: usize, max_numbers: usize) -> (numbers: Vec<i32>)
        requires
            large_count <= max_numbers,
        ensures
            drawn(numbers@, pool_limited(large_count), max_numbers - large_count),
    {
        let mut numbers: Vec<i32> = Vec::new();
        let mut large_pool: Vec<i32> = vec![25, 50, 75, 100];
        let mut round: usize = 0;
        while round < large_count
            invariant
                round <= large_count,
                numbers.len() + large_pool.len() == LARGE_POOL,
                numbers.len() == pool_limited(round),
                forall|i: int| 0 <= i < numbers.len() ==> is_large(#[trigger] numbers[i]),
                forall|i: int| 0 <= i < large_pool.len() ==> is_large(#[trigger] large_pool[i]),
                forall|i: int, j: int| 0 <= i < j < numbers.len() ==> numbers[i] != numbers[j],
                forall|i: int, j: int|
                    0 <= i < j < large_pool.len() ==> large_pool[i] != large_pool[j],
                forall|i: int, j: int|
                    0 <= i < numbers.len() && 0 <= j < large_pool.len() ==> numbers[i]
                        != large_pool[j],
            decreases large_count - round,
        {
            match pick_index(&mut self.rng, large_pool.len()) {
                Some(idx) => {
                    numbers.push(large_pool[idx]);
                    large_pool.remove(idx);
                },
                None => {},
            }
            round += 1;
        }
        let small_count = max_numbers - large_count;
        let small_pool: [i32; 10] = [1, 2, 3, 4, 5, 6, 7, 8, 9, 10];
        let ghost large_drawn = numbers.len();
        let mut round: usize = 0;
        while round < small_count
            invariant
                round <= small_count,
                large_drawn == pool_limited(large_count),
                small_count == max_numbers - large_count,
                small_pool@.len() == 10,
                forall|i: int| 0 <= i < 10 ==> is_small(#[trigger] small_pool@[i]),
                drawn(numbers@, large_drawn as int, round as int),
            decreases small_count - round,
        {
            match pick_item(&mut self.rng, small_pool.as_slice()) {
                Some(number) => {
                    numbers.push(number);
                },
                None => {},
            }
            round += 1;
        }
        numbers
    }

    /// A puzzle with `large_count` large numbers among `max_numbers` numbers
    /// and a target drawn from 101 to 999.
    pub fn generate(&mut self, large_count: usize, max_numbers: usize) -> (puzzle: Puzzle)
        requires
            large_count <= max_numbers,
        ensures
            puzzle.large_count == large_count,
            puzzle.max_numbers == max_numbers,
            MIN_TARGET <= puzzle.target <= MAX_TARGET,
            drawn(puzzle.numbers@, pool_limited(large_count), max_numbers - large_count),
            large_count <= LARGE_POOL ==> puzzle.valid(),
    {
        let numbers = self.draw_numbers(large_count, max_numbers);
        let target = draw_between(&mut self.rng, MIN_TARGET, MAX_TARGET);
        proof {
            lemma_drawn_counts(numbers@, pool_limited(large_count), max_numbers - large_count);
        }
        Puzzle { numbers, target, large_count, max_numbers }
    }

    /// A puzzle of six numbers, one to four of them large.
    pub fn generate_classic(&mut self) -> (puzzle: Puzzle)
        ensures
            1 <= puzzle.large_count <= 4,
            puzzle.max_numbers == 6,
            drawn(puzzle.numbers@, puzzle.large_count as int, 6 - puzzle.large_count),
            puzzle.valid(),
    {
        let large_count = draw_between(&mut self.rng, 1, 4);
        self.generate(large_count as usize, 6)
    }

    /// A puzzle with the given target, its numbers drawn as `generate` draws
    /// them.
    pub fn generate_with_target(&mut self, target: i32, large_count: usize, max_numbers: usize) -> (puzzle: Puzzle)
        requires
            MIN_TARGET <= target <= MAX_TARGET,
            large_count <= max_numbers,
        ensures
            puzzle.target == target,
            puzzle.large_count == large_count,
            puzzle.max_numbers == max_numbers,
            drawn(puzzle.numbers@, pool_limited(large_count), max_numbers - large_count),
            large_count <= LARGE_POOL ==> puzzle.valid(),
    {
        let numbers = self.draw_numbers(large_count, max_numbers);
        proof {
            lemma_drawn_counts(numbers@, pool_limited(large_count), max_numbers - large_count);
        }
        Puzzle { numbers, target, large_count, max_numbers }
    }
}

} // verus!
