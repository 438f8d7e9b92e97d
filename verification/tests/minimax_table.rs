use countdown_numbers_game::solvers::MinimaxSolver;

/// Depth, target, numbers, the expression that is returned, the positions
/// visited.
const CASES: &[(usize, i32, &[i32], Option<&str>, u64)] = &[
    (3, 27, &[5, 75, 3, 6], Some("(75 - (6 * (5 + 3)))"), 5518),
    (1, 57, &[0, 6, 5, 4], Some("(6 * 5)"), 40),
    (6, 18, &[1, 4, 5], Some("(5 * (1 * 4))"), 157),
    (3, 392, &[7, 100, 4, 100], Some("(100 + (100 * (7 - 4)))"), 5607),
    (6, 292, &[-3, 2, -4, 0], None, 6165),
    (2, -91, &[10, 6, 7], Some("(6 - (10 * 7))"), 131),
    (1, 366, &[10, 10, 4, 5], None, 41),
    (2, -127, &[-1, -1, 6], None, 177),
    (2, 105, &[100, 100], Some("(100 + 100)"), 9),
    (1, 36, &[-1, -1], Some("(-1 * -1)"), 9),
    (1, 195, &[-4, 1, 3], None, 21),
    (3, 28, &[7, 5, 10, 1], Some("(7 * (5 - 1))"), 5694),
    (6, 1, &[50, 4], Some("(50 - 4)"), 7),
    (6, 140, &[5, 9, 5, 6], Some("(9 * (6 + (5 + 5)))"), 5319),
    (3, 183, &[5, 75, 4, 7], Some("(4 * (75 - (5 * 7)))"), 5008),
    (6, 66, &[-4, 5, 0, 0], Some("(5 - (-4 * (5 - (-4 * 0))))"), 6157),
    (3, 11, &[3, 0, 1, 5], Some("(5 * (3 - 1))"), 6450),
    (6, -18, &[2, 1, 0, 2], Some("(0 - (2 * (2 + 1)))"), 7474),
    (1, -14, &[0, 8, 4], Some("(0 - 8)"), 22),
    (1, -66, &[3, 2, 2, 3], Some("(2 - 3)"), 41),
    (3, 386, &[3, 5], None, 7),
    (2, 300, &[75, 5, 6, 4], Some("(75 * 4)"), 688),
    (6, -26, &[1, 8, 100, 6], Some("(100 / (1 - 6))"), 5494),
    (3, 373, &[3, 3, 3, 2], None, 6697),
    (2, 52, &[1, 100, 25], Some("(100 - (1 + 25))"), 161),
    (3, 191, &[0, 3], None, 8),
    (3, -5, &[-6, 5], Some("(-6 + 5)"), 7),
    (3, 172, &[5, 3, 1], None, 149),
    (6, 23, &[6, 7, 8, 8], Some("(7 - (8 * (6 - 8)))"), 5367),
    (3, 55, &[8, 9, 2, 10], Some("(2 * (10 + (8 + 9)))"), 5399),
    (2, 47, &[3, 3, 3], Some("(3 * (3 * 3))"), 193),
    (2, 187, &[10, 2, 7, 3], Some("(3 * (10 * 7))"), 742),
    (6, 6, &[50, 100, 1], Some("(1 + (100 / 50))"), 161),
    (6, 8, &[0, 1], Some("(0 + 1)"), 8),
    (2, 36, &[4, 5, 10, 8], Some("(5 + (4 * 8))"), 760),
    (3, 369, &[3, 3], None, 9),
    (3, -91, &[2, 8, 5, 10], Some("(5 - (8 * (2 + 10)))"), 5646),
    (6, 27, &[6, -3, 1], Some("(6 * (1 - -3))"), 163),
    (2, 198, &[6, 1, 6, -1], None, 985),
    (1, 244, &[2, 6, 8], None, 21),
    (1, 125, &[7, 9], Some("(7 * 9)"), 7),
    (1, 108, &[0, 3, 0, 7], Some("(3 * 7)"), 41),
    (2, -15, &[-6, -1, -3, 3], Some("(3 * (-6 - -1))"), 944),
    (6, 393, &[50, 1, 7, 100], Some("(100 - (50 * (1 - 7)))"), 5670),
    (6, 62, &[1, 3, 6, 1], Some("(3 * (6 * (1 + 1)))"), 6942),
    (1, -93, &[5, 4, 6, 1], Some("(1 - 6)"), 40),
    (3, 359, &[-1, 5], None, 8),
    (6, 288, &[5, 6, 7, 1], Some("(6 * (7 * (5 + 1)))"), 5790),
    (6, 375, &[3, 2, 2], None, 153),
    (2, 380, &[-4, -2, -5, 0], None, 836),
    (1, 225, &[3, 6], None, 8),
    (3, -8, &[10, 5, 9, 4], Some("(10 - (5 + (9 + 4)))"), 5242),
    (3, 39, &[3, 7, 2, 2], Some("(2 * (2 * (3 + 7)))"), 5611),
    (2, 107, &[-4, -2, -3], Some("(-4 * (-2 + -3))"), 142),
    (6, -54, &[7, 7, 3], Some("(3 - (7 * 7))"), 149),
    (3, -5, &[8, 10, 10, 7], Some("(10 - (8 + 7))"), 5255),
    (6, -4, &[6, 100, 5], Some("(6 - (100 / 5))"), 138),
    (6, 223, &[1, 3, 0], None, 169),
    (3, -12, &[2, 2], Some("(2 - 2)"), 9),
    (2, -14, &[7, 1, 2, 3], Some("(7 * (1 - 3))"), 808),
    (2, 263, &[0, 5, 2, 2], None, 874),
    (1, 43, &[1, 4, 8, 0], Some("(4 * 8)"), 43),
    (3, 352, &[1, 6], None, 8),
    (1, 181, &[-5, 3, -5, -5], None, 43),
    (1, -14, &[1, 4, 1, 10], Some("(1 - 10)"), 43),
    (6, 25, &[-6, -1, -6, 3], Some("(-6 * (3 + (-6 + -1)))"), 6884),
    (1, 61, &[2, 3, 10, 7], Some("(10 * 7)"), 38),
    (2, -62, &[6, 2, 1], Some("(1 - (6 * 2))"), 165),
    (1, 242, &[9, 8, 3], None, 20),
    (2, 128, &[5, 8, 1], Some("(8 * (5 + 1))"), 149),
];

#[test]
fn minimax_table_of_small_puzzles() {
    for (depth, target, numbers, expected, visited) in CASES.iter() {
        let mut solver = MinimaxSolver::with_depth(*depth);
        let result = solver.solve(*target, numbers);
        if let Some(equation) = &result {
            let value = equation.solve().unwrap();
            assert!((value as i64 - *target as i64).abs() < 100);
        }
        let text = result.map(|e| e.format());
        assert_eq!(
            (text.as_deref(), solver.nodes_explored),
            (*expected, *visited),
            "depth {} target {} numbers {:?}",
            depth,
            target,
            numbers
        );
    }
}
