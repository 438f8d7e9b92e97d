use countdown_numbers_game::{Puzzle, PuzzleGenerator};

const LARGE_NUMBERS: &[i32] = &[25, 50, 75, 100];
const SMALL_NUMBERS: &[i32] = &[1, 2, 3, 4, 5, 6, 7, 8, 9, 10];

#[test]
fn test_generate_puzzle() {
    let mut generator = PuzzleGenerator::new();
    let puzzle = generator.generate(2, 6);

    assert_eq!(puzzle.numbers.len(), 6);
    assert_eq!(puzzle.max_numbers, 6);
    assert_eq!(puzzle.large_count, 2);
    assert_eq!(puzzle.small_count(), 4);
    assert!(puzzle.target >= 101 && puzzle.target <= 999);
    assert!(puzzle.is_valid());
}

#[test]
fn test_generate_classic_puzzle() {
    let mut generator = PuzzleGenerator::new();
    let puzzle = generator.generate_classic();

    assert_eq!(puzzle.numbers.len(), 6);
    assert_eq!(puzzle.max_numbers, 6);
    assert!(puzzle.large_count >= 1 && puzzle.large_count <= 4);
    assert!(puzzle.target >= 101 && puzzle.target <= 999);
    assert!(puzzle.is_valid());
}

#[test]
fn test_generate_with_target() {
    let mut generator = PuzzleGenerator::new();
    let puzzle = generator.generate_with_target(327, 3, 6);

    assert_eq!(puzzle.numbers.len(), 6);
    assert_eq!(puzzle.max_numbers, 6);
    assert_eq!(puzzle.target, 327);
    assert_eq!(puzzle.large_count, 3);
    assert_eq!(puzzle.small_count(), 3);
    assert!(puzzle.is_valid());
}

#[test]
fn test_puzzle_validation() {
    let valid_puzzle = Puzzle::new(vec![25, 50, 1, 2, 3, 4], 327);
    assert!(valid_puzzle.is_valid());

    let invalid_target = Puzzle::new(vec![25, 50, 1, 2, 3, 4], 50);
    assert!(!invalid_target.is_valid());

    let too_few_numbers = Puzzle::new(vec![25, 50, 1, 2, 3], 327);
    assert!(too_few_numbers.is_valid()); // Now valid with max_numbers = 5
}

#[test]
fn test_large_and_small_counts() {
    let puzzle = Puzzle::new(vec![25, 50, 75, 1, 2, 3], 456);
    assert_eq!(puzzle.large_count, 3);
    assert_eq!(puzzle.small_count(), 3);
    assert_eq!(puzzle.max_numbers, 6);
}

#[test]
fn test_all_large_numbers() {
    let mut generator = PuzzleGenerator::new();
    let puzzle = generator.generate(4, 6);

    assert_eq!(puzzle.large_count, 4);
    assert_eq!(puzzle.small_count(), 2);
    assert_eq!(puzzle.max_numbers, 6);

    let large_count_actual = puzzle
        .numbers
        .iter()
        .filter(|&&n| LARGE_NUMBERS.contains(&n))
        .count();
    assert_eq!(large_count_actual, 4);
}

#[test]
fn test_no_large_numbers() {
    let mut generator = PuzzleGenerator::new();
    let puzzle = generator.generate(0, 6);

    assert_eq!(puzzle.large_count, 0);
    assert_eq!(puzzle.small_count(), 6);
    assert_eq!(puzzle.max_numbers, 6);

    let large_count_actual = puzzle
        .numbers
        .iter()
        .filter(|&&n| LARGE_NUMBERS.contains(&n))
        .count();
    assert_eq!(large_count_actual, 0);
}

#[test]
fn test_custom_max_numbers() {
    let mut generator = PuzzleGenerator::new();
    let puzzle = generator.generate(2, 8);

    assert_eq!(puzzle.numbers.len(), 8);
    assert_eq!(puzzle.max_numbers, 8);
    assert_eq!(puzzle.large_count, 2);
    assert_eq!(puzzle.small_count(), 6);
    assert!(puzzle.target >= 101 && puzzle.target <= 999);
}

#[test]
fn test_small_puzzle() {
    let mut generator = PuzzleGenerator::new();
    let puzzle = generator.generate(1, 3);

    assert_eq!(puzzle.numbers.len(), 3);
    assert_eq!(puzzle.max_numbers, 3);
    assert_eq!(puzzle.large_count, 1);
    assert_eq!(puzzle.small_count(), 2);
    assert!(puzzle.target >= 101 && puzzle.target <= 999);
}

#[test]
fn generated_numbers_are_large_first_then_small() {
    let mut generator = PuzzleGenerator::default();
    for large_count in 0..=4usize {
        for _ in 0..50 {
            let puzzle = generator.generate(large_count, 6);
            assert_eq!(puzzle.numbers.len(), 6);
            for (i, n) in puzzle.numbers.iter().enumerate() {
                if i < large_count {
                    assert!(LARGE_NUMBERS.contains(n));
                    assert!(!puzzle.numbers[..i].contains(n));
                } else {
                    assert!(SMALL_NUMBERS.contains(n));
                }
            }
            assert!(puzzle.is_valid());
        }
    }
}

#[test]
fn more_large_numbers_than_there_are() {
    let mut generator = PuzzleGenerator::new();
    let puzzle = generator.generate(6, 8);
    assert_eq!(puzzle.large_count, 6);
    assert_eq!(puzzle.max_numbers, 8);
    // the four large numbers, each once, and two small ones
    assert_eq!(puzzle.numbers.len(), 6);
    let mut large: Vec<i32> = puzzle.numbers[..4].to_vec();
    large.sort();
    assert_eq!(large, vec![25, 50, 75, 100]);
    assert!(SMALL_NUMBERS.contains(&puzzle.numbers[4]));
    assert!(SMALL_NUMBERS.contains(&puzzle.numbers[5]));
    assert!(!puzzle.is_valid());
}

#[test]
fn draws_differ() {
    let mut generator = PuzzleGenerator::new();
    let mut targets = Vec::new();
    let mut firsts = Vec::new();
    let mut lasts = Vec::new();
    let mut larges = Vec::new();
    for _ in 0..400 {
        let puzzle = generator.generate_classic();
        targets.push(puzzle.target);
        firsts.push(puzzle.numbers[0]);
        lasts.push(puzzle.numbers[5]);
        larges.push(puzzle.large_count);
    }
    for list in [&mut targets, &mut firsts, &mut lasts] {
        list.sort();
        list.dedup();
    }
    larges.sort();
    larges.dedup();
    assert!(targets.len() > 50);
    assert!(targets.iter().any(|t| *t != 101));
    assert_eq!(firsts, vec![25, 50, 75, 100]);
    assert!(lasts.len() > 5);
    assert_eq!(larges, vec![1, 2, 3, 4]);
}

#[test]
fn given_target_is_kept() {
    let mut generator = PuzzleGenerator::new();
    for target in [101, 500, 999] {
        let puzzle = generator.generate_with_target(target, 0, 4);
        assert_eq!(puzzle.target, target);
        assert_eq!(puzzle.numbers.len(), 4);
        assert!(puzzle.numbers.iter().all(|n| SMALL_NUMBERS.contains(n)));
        assert!(puzzle.is_valid());
    }
}

#[test]
fn validity_of_given_puzzles() {
    assert!(Puzzle::new(vec![25, 50, 75, 100, 1, 10], 101).is_valid());
    assert!(Puzzle::new(vec![1, 1, 1, 1, 1, 1], 999).is_valid());
    assert!(Puzzle::new(vec![], 500).is_valid());
    // target out of range
    assert!(!Puzzle::new(vec![25, 1], 100).is_valid());
    assert!(!Puzzle::new(vec![25, 1], 1000).is_valid());
    // a number that is neither large nor small
    assert!(!Puzzle::new(vec![25, 11], 500).is_valid());
    assert!(!Puzzle::new(vec![25, 0], 500).is_valid());
    // more than four large numbers
    assert!(!Puzzle::new(vec![25, 50, 75, 100, 25], 500).is_valid());
    // counts that do not match the numbers
    let mut puzzle = Puzzle::new(vec![25, 50, 1, 2], 500);
    assert_eq!(puzzle.large_count, 2);
    assert_eq!(puzzle.max_numbers, 4);
    assert_eq!(puzzle.small_count(), 2);
    puzzle.large_count = 1;
    assert!(!puzzle.is_valid());
    puzzle.large_count = 2;
    puzzle.max_numbers = 5;
    assert!(!puzzle.is_valid());
    puzzle.max_numbers = 4;
    assert!(puzzle.is_valid());
    let copy = puzzle.clone();
    assert_eq!(copy.numbers, vec![25, 50, 1, 2]);
    assert_eq!(copy.target, 500);
}
