use sudoku::Board;
use sudoku::Pos;
use sudoku::SolveResult;

const CLASSIC: &str =
    "53  7    6  195    98    6 8   6   34  8 3  17   2   6 6    28    419  5    8  79";

const CLASSIC_SOLUTION: [&str; 9] = [
    "534678912",
    "672195348",
    "198342567",
    "859761423",
    "426853791",
    "713924856",
    "961537284",
    "287419635",
    "345286179",
];

fn puzzle_from(s: &str) -> Board {
    let (board, _used) = Board::read(s.as_bytes()).expect("input holds 81 cells");
    board
}

fn fully_valid(b: &Board) -> bool {
    for i in 0..9 {
        for j in 0..9 {
            if b.get(i, j) == 0 || !b.is_position_valid(&Pos { i, j }) {
                return false;
            }
        }
    }
    true
}

#[test]
fn solves_the_classic_puzzle() {
    let mut b = puzzle_from(CLASSIC);
    assert_eq!(b.solve(), SolveResult::Solved);
    for i in 0..9 {
        let expected = CLASSIC_SOLUTION[i].as_bytes();
        for j in 0..9 {
            assert_eq!(b.get(i, j), expected[j] - b'0');
        }
    }
}

#[test]
fn solving_keeps_every_clue() {
    let clues = puzzle_from(CLASSIC);
    let mut b = puzzle_from(CLASSIC);
    assert_eq!(b.solve(), SolveResult::Solved);
    for i in 0..9 {
        for j in 0..9 {
            if clues.get(i, j) != 0 {
                assert_eq!(b.get(i, j), clues.get(i, j));
            }
        }
    }
}

#[test]
fn solved_output_is_fully_valid() {
    let mut b = puzzle_from(CLASSIC);
    assert_eq!(b.solve(), SolveResult::Solved);
    assert!(fully_valid(&b));
}

#[test]
fn blank_grid_yields_some_fully_valid_completion() {
    let mut b = Board::new();
    assert_eq!(b.solve(), SolveResult::Solved);
    assert!(fully_valid(&b));
}

#[test]
fn blank_grid_yields_the_least_completion() {
    // Raster cell order and ascending digit trials make the result the
    // raster-major lexicographically least solved grid.
    let expected = [
        "123456789",
        "456789123",
        "789123456",
        "214365897",
        "365897214",
        "897214365",
        "531642978",
        "642978531",
        "978531642",
    ];
    let mut b = Board::new();
    assert_eq!(b.solve(), SolveResult::Solved);
    for i in 0..9 {
        let row = expected[i].as_bytes();
        for j in 0..9 {
            assert_eq!(b.get(i, j), row[j] - b'0');
        }
    }
}

#[test]
fn contradictory_input_is_unsolvable() {
    // Two fives in one row, everything else blank.
    let mut b = Board::new();
    b.set_pos(5, &Pos { i: 0, j: 0 });
    b.set_pos(5, &Pos { i: 0, j: 4 });
    assert_eq!(b.solve(), SolveResult::Unsolvable);
    // Every guess is undone: the deduction places nothing here, so the
    // grid comes back exactly as it went in, empty cells and all.
    for i in 0..9 {
        for j in 0..9 {
            let expected = if i == 0 && (j == 0 || j == 4) { 5 } else { 0 };
            assert_eq!(b.get(i, j), expected);
        }
    }
}

#[test]
fn full_valid_grid_solves_immediately_without_change() {
    let full: String = CLASSIC_SOLUTION.concat();
    let mut b = puzzle_from(&full);
    assert_eq!(b.solve(), SolveResult::Solved);
    for i in 0..9 {
        let expected = CLASSIC_SOLUTION[i].as_bytes();
        for j in 0..9 {
            assert_eq!(b.get(i, j), expected[j] - b'0');
        }
    }
}

#[test]
fn full_grid_with_a_conflict_is_unsolvable_without_change() {
    let full: String = CLASSIC_SOLUTION.concat();
    let mut b = puzzle_from(&full);
    // Duplicate a digit inside the first row: the grid stays full but is in
    // contradiction.
    b.set_pos(3, &Pos { i: 0, j: 0 });
    let before = puzzle_from(&full);
    assert_eq!(b.solve(), SolveResult::Unsolvable);
    assert_eq!(b.get(0, 0), 3);
    for i in 0..9 {
        for j in 0..9 {
            if !(i == 0 && j == 0) {
                assert_eq!(b.get(i, j), before.get(i, j));
            }
        }
    }
}
