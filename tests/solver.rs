use sudoku::{row_column_to_box, Axis, Line, SolveError, Sudoku};

const EASY: &str =
    "53__7____6__195____98____6_8___6___34__8_3__17___2___6_6____28____419__5____8__79";
const EASY_SOLUTION: &str =
    "534678912672195348198342567859761423426853791713924856961537284287419635345286179";
const HARD: &str =
    "4_____8_5_3__________7______2_____6_____8_4______1_______6_3_7_5__2_____1_4______";

fn parse(text: &str) -> Sudoku {
    match Sudoku::from_str(&text.replace('_', "0")) {
        Ok(s) => s,
        Err(e) => panic!("puzzle not read: {:?}", e),
    }
}

fn solved_cells(mut s: Sudoku) -> Vec<u8> {
    match s.solve() {
        Ok(Some(u)) => u.data.clone(),
        Ok(None) => s.data.clone(),
        Err(e) => panic!("no solution: {:?}", e),
    }
}

fn digits(text: &str) -> Vec<u8> {
    text.bytes().map(|b| if b == b'_' { 0 } else { b - b'0' }).collect()
}

fn assert_valid_solution(cells: &[u8], givens: &[u8]) {
    assert_eq!(cells.len(), 81);
    for u in 0..9 {
        let mut row = [false; 9];
        let mut col = [false; 9];
        let mut bx = [false; 9];
        for j in 0..9 {
            let r = cells[u * 9 + j];
            let c = cells[j * 9 + u];
            let b = cells[((u / 3) * 3 + j / 3) * 9 + (u % 3) * 3 + j % 3];
            for v in [r, c, b] {
                assert!((1..=9).contains(&v));
            }
            row[(r - 1) as usize] = true;
            col[(c - 1) as usize] = true;
            bx[(b - 1) as usize] = true;
        }
        assert!(row.iter().all(|x| *x));
        assert!(col.iter().all(|x| *x));
        assert!(bx.iter().all(|x| *x));
    }
    for p in 0..81 {
        if givens[p] != 0 {
            assert_eq!(cells[p], givens[p]);
        }
    }
}

#[test]
fn test_row_column_to_box() {
    assert_eq!(row_column_to_box(0, 0), 0);
    assert_eq!(row_column_to_box(0, 2), 0);
    assert_eq!(row_column_to_box(0, 3), 1);
    assert_eq!(row_column_to_box(0, 5), 1);
    assert_eq!(row_column_to_box(0, 6), 2);
    assert_eq!(row_column_to_box(0, 8), 2);
    assert_eq!(row_column_to_box(2, 3), 1);
    assert_eq!(row_column_to_box(2, 5), 1);
    assert_eq!(row_column_to_box(2, 6), 2);
    assert_eq!(row_column_to_box(8, 8), 8);
    assert_eq!(row_column_to_box(8, 7), 8);
    assert_eq!(row_column_to_box(7, 7), 8);
    assert_eq!(row_column_to_box(7, 2), 6);
    assert_eq!(row_column_to_box(7, 3), 7);
    assert_eq!(row_column_to_box(6, 1), 6);
    assert_eq!(row_column_to_box(3, 1), 3);
    assert_eq!(row_column_to_box(3, 0), 3);
}

#[test]
fn test_solve_sudokus() {
    for puzzle in [EASY, HARD] {
        let mut s = parse(puzzle);
        match s.solve() {
            Err(reason) => panic!("{:?}", reason),
            Ok(Some(n)) => assert!(n.done()),
            Ok(None) => assert!(s.done()),
        }
    }
}

#[test]
fn easy_puzzle_solves_to_known_grid() {
    let cells = solved_cells(parse(EASY));
    assert_eq!(cells, digits(EASY_SOLUTION));
    assert_valid_solution(&cells, &digits(EASY));
}

#[test]
fn hard_puzzle_needs_a_guess_and_solves() {
    let mut s = parse(HARD);
    loop {
        let placed = s.loop_over().unwrap();
        if placed == 0 {
            break;
        }
        s.update_grid();
    }
    assert!(!s.done());
    let (r, c, options) = s.find_loc_with_minimal_possiblities();
    assert_eq!(s.data[r * 9 + c], 0);
    assert!(options.len() >= 2);
    let cells = solved_cells(parse(HARD));
    assert_valid_solution(&cells, &digits(HARD));
}

#[test]
fn solved_board_round_trips() {
    let mut s = parse(EASY_SOLUTION);
    assert!(s.done());
    let before = s.data.clone();
    assert!(matches!(s.solve(), Ok(None)));
    assert_eq!(s.data, before);
}

#[test]
fn cell_without_candidates_is_a_dead_end() {
    let mut text = String::from("123456780");
    text.push_str("000000009");
    for _ in 0..7 {
        text.push_str("000000000");
    }
    let mut s = Sudoku::from_str(&text).unwrap();
    assert_eq!(s.loop_over(), Err(SolveError::DeadEnd { row: 0, col: 8 }));
    let mut s = Sudoku::from_str(&text).unwrap();
    assert!(s.solve().is_err());
}

#[test]
fn clashing_naked_singles_fail() {
    let mut cells = vec![0u8; 81];
    for c in 2..9 {
        cells[c] = (c + 1) as u8;
    }
    cells[3 * 9] = 2;
    cells[6 * 9 + 1] = 2;
    let mut s = Sudoku::from_cells(&cells).unwrap();
    assert_eq!(s.candidates_for(0, 0), s.candidates_for(0, 1));
    assert_eq!(s.loop_over(), Err(SolveError::Contradiction { value: 1 }));
}

#[test]
fn naked_singles_finish_without_guessing() {
    let mut cells = digits(EASY_SOLUTION);
    for p in [0usize, 10, 20, 30, 40, 50, 60, 70, 80] {
        cells[p] = 0;
    }
    let mut s = Sudoku::from_cells(&cells).unwrap();
    assert_eq!(s.loop_over(), Ok(9));
    assert!(s.done());
    assert_eq!(s.data, digits(EASY_SOLUTION));
}

#[test]
fn repeated_given_is_a_contradiction() {
    let mut text = String::from("550000000");
    for _ in 0..8 {
        text.push_str("000000000");
    }
    assert_eq!(Sudoku::from_str(&text).err(), Some(SolveError::Contradiction { value: 5 }));
}

#[test]
fn bad_text_is_rejected() {
    assert_eq!(Sudoku::from_str("12x").err(), Some(SolveError::BadInput { index: 2 }));
    assert_eq!(Sudoku::from_str("123").err(), Some(SolveError::BadInput { index: 3 }));
    let long = "0".repeat(82);
    assert_eq!(Sudoku::from_str(&long).err(), Some(SolveError::BadInput { index: 82 }));
}

#[test]
fn newlines_are_ignored() {
    let mut text = String::new();
    for r in 0..9 {
        text.push_str(&EASY_SOLUTION[r * 9..r * 9 + 9]);
        text.push('\n');
    }
    let s = Sudoku::from_str(&text).unwrap();
    assert_eq!(s.data, digits(EASY_SOLUTION));
    assert_eq!(s.len, 81);
}

#[test]
fn axis_rejects_a_value_twice() {
    let mut a = Axis::new(4);
    assert_eq!(a.add(3), Ok(()));
    assert_eq!(a.len, 1);
    assert_eq!(a.add(3), Err(SolveError::Contradiction { value: 3 }));
    assert_eq!(a.len, 1);
    let mut poss = vec![true; 9];
    a.mark_possibilities(&mut poss);
    assert_eq!(poss, vec![true, true, false, true, true, true, true, true, true]);
}

#[test]
fn set_rejects_filled_cell_and_unit_repeats() {
    let mut s = Sudoku::new();
    assert_eq!(s.set(0, 0, 5), Ok(()));
    assert_eq!(s.set(0, 0, 6), Err(SolveError::Contradiction { value: 6 }));
    assert_eq!(s.set(0, 7, 5), Err(SolveError::Contradiction { value: 5 }));
    assert_eq!(s.set(7, 0, 5), Err(SolveError::Contradiction { value: 5 }));
    assert_eq!(s.set(2, 2, 5), Err(SolveError::Contradiction { value: 5 }));
    assert_eq!(s.set(4, 4, 5), Ok(()));
    assert_eq!(s.len, 2);
}

#[test]
fn candidates_follow_the_units() {
    let s = parse(EASY);
    let c = s.candidates_for(0, 2);
    let values = sudoku::board::presense_array_to_vec(&c);
    assert_eq!(values, vec![1, 2, 4]);
    assert_eq!(sudoku::board::presense_array_to_vec(&vec![false; 9]), Vec::<u8>::new());
}

#[test]
fn hidden_single_in_a_row() {
    let mut s = Sudoku::new();
    s.set(1, 0, 1).unwrap();
    s.set(2, 4, 1).unwrap();
    s.set(3, 6, 1).unwrap();
    s.set(6, 7, 1).unwrap();
    s.update_grid();
    assert_eq!(s.check_row_possible(Line::Row), Ok(1));
    assert_eq!(s.data[8], 1);
}

#[test]
fn new_with_places_one_more_value() {
    let s = parse(EASY);
    let n = s.new_with(0, 2, 4).unwrap();
    assert_eq!(n.data[2], 4);
    assert_eq!(n.len, s.len + 1);
    assert_eq!(s.new_with(0, 2, 5).err(), Some(SolveError::Contradiction { value: 5 }));
}

#[test]
fn hidden_single_in_a_column() {
    let mut s = Sudoku::new();
    s.set(1, 1, 1).unwrap();
    s.set(4, 2, 1).unwrap();
    s.set(6, 4, 1).unwrap();
    s.set(7, 7, 1).unwrap();
    s.update_grid();
    assert_eq!(s.check_row_possible(Line::Column), Ok(1));
    assert_eq!(s.data[8 * 9], 1);
}

#[test]
fn hidden_single_in_a_box() {
    let mut s = Sudoku::new();
    s.set(0, 4, 1).unwrap();
    s.set(1, 7, 1).unwrap();
    s.set(4, 0, 1).unwrap();
    s.set(7, 1, 1).unwrap();
    s.update_grid();
    assert_eq!(s.check_row_possible(Line::Box), Ok(1));
    assert_eq!(s.data[2 * 9 + 2], 1);
}

#[test]
fn stalled_board_is_left_unchanged() {
    let mut s = parse(HARD);
    while s.loop_over().unwrap() > 0 {
        s.update_grid();
    }
    let before = s.data.clone();
    let len = s.len;
    assert_eq!(s.loop_over(), Ok(0));
    assert_eq!(s.data, before);
    assert_eq!(s.len, len);
}

#[test]
fn branch_cell_prefers_fewest_candidates() {
    let s = Sudoku::new();
    let (r, c, options) = s.find_loc_with_minimal_possiblities();
    assert_eq!((r, c), (0, 0));
    assert_eq!(options, vec![1, 2, 3, 4, 5, 6, 7, 8, 9]);
    let mut s = parse(HARD);
    while s.loop_over().unwrap() > 0 {
        s.update_grid();
    }
    let (r, c, options) = s.find_loc_with_minimal_possiblities();
    assert_eq!(s.data[r * 9 + c], 0);
    assert!(options.len() >= 2);
    for p in 0..r * 9 + c {
        if s.data[p] == 0 {
            let flags = s.grid[p * 9..p * 9 + 9].to_vec();
            assert!(sudoku::board::presense_array_to_vec(&flags).len() > options.len());
        }
    }
}

#[test]
fn from_cells_matches_from_str() {
    let a = Sudoku::from_cells(&digits(EASY)).unwrap();
    let b = parse(EASY);
    assert_eq!(a.data, b.data);
    assert_eq!(a.grid, b.grid);
    assert_eq!(a.len, 30);
    let mut bad = digits(EASY);
    bad[1] = 5;
    assert_eq!(Sudoku::from_cells(&bad).err(), Some(SolveError::Contradiction { value: 5 }));
}
