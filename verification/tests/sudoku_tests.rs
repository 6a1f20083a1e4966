use std::collections::HashSet;

use sudoku::{
    col_vals, cube_vals, find_first_empty, new_board, options_for, row_vals, solve_sudoku, Sudoku,
};

/// A complete, rule-valid grid: cell (r, c) holds (r*3 + r/3 + c) % 9 + 1.
fn pattern_solution() -> Vec<u32> {
    let mut v: Vec<u32> = Vec::new();
    for r in 0..9u32 {
        for c in 0..9u32 {
            v.push((r * 3 + r / 3 + c) % 9 + 1);
        }
    }
    v
}

/// Nine values are a permutation of 1..=9.
fn is_permutation(vals: &[u32]) -> bool {
    let mut seen = [false; 10];
    if vals.len() != 9 {
        return false;
    }
    for &v in vals {
        if !(1..=9).contains(&v) || seen[v as usize] {
            return false;
        }
        seen[v as usize] = true;
    }
    true
}

#[test]
fn find_firt_empty_test() {
    let mut board = new_board();
    board[3] = Some(5);
    assert_eq!(find_first_empty(&board), Some((0, 0)));
}

#[test]
fn row_vals_test() {
    let mut board = new_board();
    let row4 = &mut board[27..=35];
    row4[3] = Some(9);
    row4[5] = Some(3);
    row4[6] = Some(2);
    let expected = vec![2, 3, 9].into_iter().collect::<HashSet<u32>>();
    assert_eq!(expected, row_vals(&board, 3));
}

#[test]
fn col_vals_test() {
    let mut board = new_board();
    board[3] = Some(9);
    board[21] = Some(5);
    board[30] = Some(1);
    let expected = vec![9, 5, 1].into_iter().collect::<HashSet<u32>>();
    assert_eq!(expected, col_vals(&board, 3));
}

#[test]
fn cube_vals_test() {
    let mut board = new_board();
    board[40] = Some(9);
    board[50] = Some(5);
    board[32] = Some(1);
    let expected = vec![9, 5, 1].into_iter().collect::<HashSet<u32>>();
    assert_eq!(expected, cube_vals(&board, 5, 5));
}

#[test]
fn options_for_test() {
    let mut board = new_board();
    board[4] = Some(1); // 4th col
    board[13] = Some(2); // 4th col
    board[37] = Some(3); // 4th row
    board[38] = Some(4); // 4th row
    board[30] = Some(5); // middle cube
    board[50] = Some(6); // middle cube
    let expected = vec![9, 8, 7].into_iter().collect::<HashSet<u32>>();
    assert_eq!(expected, options_for(&board, 4, 4)); // a spot in the middle cube, 4th row 4th col
}

#[test]
fn new_board_is_all_empty() {
    let board = new_board();
    assert_eq!(board.len(), 81);
    assert!(board.iter().all(|c| c.is_none()));
    let game = Sudoku::new();
    assert_eq!(game.board.len(), 81);
    assert!(game.board.iter().all(|c| c.is_none()));
}

#[test]
fn from_flat_requires_exactly_81_values() {
    assert!(Sudoku::from_flat(vec![0; 80]).is_none());
    assert!(Sudoku::from_flat(vec![0; 82]).is_none());
    assert!(Sudoku::from_flat(Vec::new()).is_none());
    // length 81 always succeeds, whatever the values hold
    assert!(Sudoku::from_flat(vec![0; 81]).is_some());
    assert!(Sudoku::from_flat(pattern_solution()).is_some());
    let game = Sudoku::from_flat(pattern_solution()).unwrap();
    for (i, &v) in pattern_solution().iter().enumerate() {
        assert_eq!(game.board[i], if v == 0 { None } else { Some(v) });
    }
}

#[test]
fn candidate_set_is_row_col_box_exclusion() {
    // digits 1,2 seeded in the column, 3,4 in the row, 5,6 in the box of the
    // target cell (4, 4) leave exactly the candidate set {7, 8, 9}
    let mut board = new_board();
    board[4] = Some(1);
    board[13] = Some(2);
    board[36] = Some(3);
    board[37] = Some(4);
    board[30] = Some(5);
    board[50] = Some(6);
    let expected = vec![7, 8, 9].into_iter().collect::<HashSet<u32>>();
    assert_eq!(expected, options_for(&board, 4, 4));
}

#[test]
fn solve_complete_board_returns_true_unchanged() {
    let flat = pattern_solution();
    let mut game = Sudoku::from_flat(flat.clone()).unwrap();
    assert!(solve_sudoku(&mut game));
    for (i, &v) in flat.iter().enumerate() {
        assert_eq!(game.board[i], Some(v));
    }
}

#[test]
fn solve_fills_blanks_and_keeps_clues() {
    let mut flat = pattern_solution();
    for i in 0..81 {
        if i % 4 == 0 {
            flat[i] = 0;
        }
    }
    let mut game = Sudoku::from_flat(flat.clone()).unwrap();
    assert!(solve_sudoku(&mut game));
    // every clue untouched, every blank filled
    for i in 0..81 {
        match flat[i] {
            0 => assert!(matches!(game.board[i], Some(1..=9))),
            v => assert_eq!(game.board[i], Some(v)),
        }
    }
    // every row, column and box holds a permutation of 1..=9
    for u in 0..9usize {
        let row: Vec<u32> = (0..9).map(|c| game.board[u * 9 + c].unwrap()).collect();
        let col: Vec<u32> = (0..9).map(|r| game.board[r * 9 + u].unwrap()).collect();
        let boxv: Vec<u32> = (0..9)
            .map(|k| game.board[(u / 3 * 3 + k / 3) * 9 + (u % 3 * 3 + k % 3)].unwrap())
            .collect();
        assert!(is_permutation(&row));
        assert!(is_permutation(&col));
        assert!(is_permutation(&boxv));
    }
}

#[test]
fn solve_empty_board_succeeds() {
    let mut game = Sudoku::new();
    assert!(solve_sudoku(&mut game));
    for i in 0..81 {
        assert!(matches!(game.board[i], Some(1..=9)));
    }
}

#[test]
fn solve_unsolvable_board_restores_input() {
    // two identical clues (9 and 9) in the second row; the first empty cell
    // (0, 0) sees 1..=8 in its row and both 9s in its column and box, so the
    // search exhausts and must hand back the board exactly as constructed
    let mut flat = vec![0; 81];
    for c in 1..9 {
        flat[c] = c as u32;
    }
    flat[9] = 9;
    flat[10] = 9;
    let mut game = Sudoku::from_flat(flat.clone()).unwrap();
    assert!(!solve_sudoku(&mut game));
    for i in 0..81 {
        assert_eq!(game.board[i], if flat[i] == 0 { None } else { Some(flat[i]) });
    }
}

#[test]
fn solve_is_deterministic() {
    let mut flat = pattern_solution();
    for i in 0..81 {
        if i % 5 == 0 {
            flat[i] = 0;
        }
    }
    let mut first = Sudoku::from_flat(flat.clone()).unwrap();
    let mut second = Sudoku::from_flat(flat).unwrap();
    let r1 = solve_sudoku(&mut first);
    let r2 = solve_sudoku(&mut second);
    assert_eq!(r1, r2);
    assert!(r1);
    assert_eq!(first.board, second.board);
}
