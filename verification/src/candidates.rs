//! Candidate computation: which digits are already used in a cell's row,
//! column and 3x3 box, and which digits remain legal for that cell.

use std::collections::HashSet;
use vstd::prelude::*;

use crate::board::{cell, consistent, extends, full, in_range, peers, same_box, same_col, same_row};
use vstd::arithmetic::div_mod::{
    lemma_fundamental_div_mod, lemma_fundamental_div_mod_converse, lemma_mod_bound,
};

verus! {

broadcast use vstd::std_specs::hash::group_hash_axioms;

/// Digit `d` appears somewhere in row `row`.
pub open spec fn in_row(s: Seq<Option<u32>>, row: int, d: u32) -> bool {
    exists|c: int| 0 <= c < 9 && #[trigger] cell(s, row, c) == Some(d)
}

/// Digit `d` appears somewhere in column `col`.
pub open spec fn in_col(s: Seq<Option<u32>>, col: int, d: u32) -> bool {
    exists|r: int| 0 <= r < 9 && #[trigger] cell(s, r, col) == Some(d)
}

/// Digit `d` appears somewhere in the 3x3 box containing `row`/`col`.
pub open spec fn in_box(s: Seq<Option<u32>>, row: int, col: int, d: u32) -> bool {
    exists|r: int, c: int|
        row / 3 * 3 <= r < row / 3 * 3 + 3 && col / 3 * 3 <= c < col / 3 * 3 + 3
            && #[trigger] cell(s, r, c) == Some(d)
}

/// Digit `d` may legally be placed at `row`/`col`: it is a digit and is not
/// yet used in the cell's row, column or box.
pub open spec fn is_candidate(s: Seq<Option<u32>>, row: int, col: int, d: u32) -> bool {
    1 <= d <= 9 && !in_row(s, row, d) && !in_col(s, col, d) && !in_box(s, row, col, d)
}

/// A digit sitting at a peer of a cell shows up in that cell's row, column
/// or box.
pub proof fn lemma_peer_value_in_units(s: Seq<Option<u32>>, idx: int, j: int, d: u32)
    requires
        s.len() == 81,
        0 <= idx < 81,
        0 <= j < 81,
        peers(idx, j),
        s[j] == Some(d),
    ensures
        in_row(s, idx / 9, d) || in_col(s, idx % 9, d) || in_box(s, idx / 9, idx % 9, d),
{
    lemma_fundamental_div_mod(idx, 9);
    lemma_mod_bound(idx, 9);
    lemma_fundamental_div_mod(j, 9);
    lemma_mod_bound(j, 9);
    let jr: int = j / 9;
    let jc: int = j % 9;
    assert(cell(s, jr, jc) == s[j]);
    if same_row(idx, j) {
        assert(in_row(s, idx / 9, d));
    } else if same_col(idx, j) {
        assert(in_col(s, idx % 9, d));
    } else {
        lemma_fundamental_div_mod(jr, 3);
        lemma_mod_bound(jr, 3);
        lemma_fundamental_div_mod(jc, 3);
        lemma_mod_bound(jc, 3);
        assert(in_box(s, idx / 9, idx % 9, d));
    }
}

/// A digit present in a cell's row, column or box sits at some peer of that
/// cell, provided the cell itself is empty.
pub proof fn lemma_unit_value_at_peer(s: Seq<Option<u32>>, row: int, col: int, d: u32) -> (j: int)
    requires
        s.len() == 81,
        0 <= row < 9,
        0 <= col < 9,
        s[row * 9 + col] is None,
        in_row(s, row, d) || in_col(s, col, d) || in_box(s, row, col, d),
    ensures
        0 <= j < 81,
        peers(row * 9 + col, j),
        s[j] == Some(d),
{
    let idx: int = row * 9 + col;
    lemma_fundamental_div_mod_converse(idx, 9, row, col);
    if in_row(s, row, d) {
        let c: int = choose|c: int| 0 <= c < 9 && #[trigger] cell(s, row, c) == Some(d);
        let j: int = row * 9 + c;
        lemma_fundamental_div_mod_converse(j, 9, row, c);
        j
    } else if in_col(s, col, d) {
        let r: int = choose|r: int| 0 <= r < 9 && #[trigger] cell(s, r, col) == Some(d);
        let j: int = r * 9 + col;
        lemma_fundamental_div_mod_converse(j, 9, r, col);
        j
    } else {
        let (r, c): (int, int) = choose|r: int, c: int|
            row / 3 * 3 <= r < row / 3 * 3 + 3 && col / 3 * 3 <= c < col / 3 * 3 + 3
                && #[trigger] cell(s, r, c) == Some(d);
        let j: int = r * 9 + c;
        lemma_fundamental_div_mod(row, 3);
        lemma_mod_bound(row, 3);
        lemma_fundamental_div_mod(col, 3);
        lemma_mod_bound(col, 3);
        lemma_fundamental_div_mod_converse(j, 9, r, c);
        lemma_fundamental_div_mod_converse(r, 3, row / 3, r - row / 3 * 3);
        lemma_fundamental_div_mod_converse(c, 3, col / 3, c - col / 3 * 3);
        assert(same_box(idx, j));
        j
    }
}

/// Placing a candidate digit in an empty cell keeps the board consistent.
pub proof fn lemma_place_candidate_consistent(s: Seq<Option<u32>>, row: int, col: int, d: u32)
    requires
        s.len() == 81,
        0 <= row < 9,
        0 <= col < 9,
        s[row * 9 + col] is None,
        consistent(s),
        is_candidate(s, row, col, d),
    ensures
        consistent(s.update(row * 9 + col, Some(d))),
{
    let idx: int = row * 9 + col;
    let s2 = s.update(idx, Some(d));
    lemma_fundamental_div_mod_converse(idx, 9, row, col);
    assert forall|i: int, j: int|
        0 <= i < s2.len() && 0 <= j < s2.len() && peers(i, j) && s2[i] is Some implies s2[i]
        != s2[j] by {
        if i == idx {
            if s2[j] == Some(d) {
                assert(s[j] == Some(d));
                lemma_peer_value_in_units(s, idx, j, d);
                assert(false);
            }
        } else if j == idx {
            if s2[i] == Some(d) {
                assert(s[i] == Some(d));
                lemma_peer_value_in_units(s, idx, i, d);
                assert(false);
            }
        } else {
            assert(s2[i] == s[i] && s2[j] == s[j]);
        }
    }
}

/// In any consistent, in-range completion of `s`, the digit it places in an
/// empty cell of `s` is one of that cell's candidates.
pub proof fn lemma_solution_candidate(
    s: Seq<Option<u32>>,
    t: Seq<Option<u32>>,
    row: int,
    col: int,
)
    requires
        s.len() == 81,
        t.len() == 81,
        full(t),
        in_range(t),
        consistent(t),
        extends(t, s),
        0 <= row < 9,
        0 <= col < 9,
        s[row * 9 + col] is None,
    ensures
        t[row * 9 + col] is Some,
        is_candidate(s, row, col, t[row * 9 + col]->0),
{
    let idx: int = row * 9 + col;
    assert(t[idx] is Some);
    let d: u32 = t[idx]->0;
    assert(1 <= d <= 9);
    if in_row(s, row, d) || in_col(s, col, d) || in_box(s, row, col, d) {
        let j: int = lemma_unit_value_at_peer(s, row, col, d);
        assert(t[j] == s[j]);
        assert(false);
    }
}

/// The set of digits already present in row `row`.
pub fn row_vals(board: &Vec<Option<u32>>, row: usize) -> (r: HashSet<u32>)
    requires
        board@.len() == 81,
        row < 9,
    ensures
        forall|d: u32| #[trigger] r@.contains(d) <==> in_row(board@, row as int, d),
{
    let mut res: HashSet<u32> = HashSet::new();
    for c in 0..9usize
        invariant
            board@.len() == 81,
            row < 9,
            forall|d: u32| #[trigger] res@.contains(d) <==> exists|cc: int|
                0 <= cc < c && #[trigger] cell(board@, row as int, cc) == Some(d),
    {
        if let Some(v) = board[row * 9 + c] {
            proof {
                assert(cell(board@, row as int, c as int) == Some(v));
            }
            res.insert(v);
        }
    }
    res
}

/// The set of digits already present in column `col`.
pub fn col_vals(board: &Vec<Option<u32>>, col: usize) -> (r: HashSet<u32>)
    requires
        board@.len() == 81,
        col < 9,
    ensures
        forall|d: u32| #[trigger] r@.contains(d) <==> in_col(board@, col as int, d),
{
    let mut res: HashSet<u32> = HashSet::new();
    for r0 in 0..9usize
        invariant
            board@.len() == 81,
            col < 9,
            forall|d: u32| #[trigger] res@.contains(d) <==> exists|rr: int|
                0 <= rr < r0 && #[trigger] cell(board@, rr, col as int) == Some(d),
    {
        if let Some(v) = board[r0 * 9 + col] {
            proof {
                assert(cell(board@, r0 as int, col as int) == Some(v));
            }
            res.insert(v);
        }
    }
    res
}

/// The set of digits already present in the 3x3 box containing `row`/`col`.
pub fn cube_vals(board: &Vec<Option<u32>>, row: usize, col: usize) -> (r: HashSet<u32>)
    requires
        board@.len() == 81,
        row < 9,
        col < 9,
    ensures
        forall|d: u32| #[trigger] r@.contains(d) <==> in_box(board@, row as int, col as int, d),
{
    // round down to the box boundary
    let left_col: usize = col / 3 * 3;
    let upper_row: usize = row / 3 * 3;
    let mut res: HashSet<u32> = HashSet::new();
    for cube_col in 0..3usize
        invariant
            board@.len() == 81,
            row < 9,
            col < 9,
            left_col == col / 3 * 3,
            upper_row == row / 3 * 3,
            forall|d: u32| #[trigger] res@.contains(d) <==> exists|rr: int, cc: int|
                upper_row <= rr < upper_row + 3 && left_col <= cc < left_col + cube_col
                    && #[trigger] cell(board@, rr, cc) == Some(d),
    {
        let c: usize = left_col + cube_col;
        for cube_row in 0..3usize
            invariant
                board@.len() == 81,
                row < 9,
                col < 9,
                left_col == col / 3 * 3,
                upper_row == row / 3 * 3,
                cube_col < 3,
                c == left_col + cube_col,
                forall|d: u32| #[trigger] res@.contains(d) <==> (exists|rr: int, cc: int|
                    upper_row <= rr < upper_row + 3 && left_col <= cc < left_col + cube_col
                        && #[trigger] cell(board@, rr, cc) == Some(d)) || (exists|rr: int|
                    upper_row <= rr < upper_row + cube_row && #[trigger] cell(board@, rr, c as int)
                        == Some(d)),
        {
            let r0: usize = upper_row + cube_row;
            if let Some(val) = board[r0 * 9 + c] {
                proof {
                    assert(cell(board@, r0 as int, c as int) == Some(val));
                }
                res.insert(val);
            }
        }
    }
    res
}

/// The candidate set for the cell at `row`/`col`: the digits 1..=9 minus
/// everything already used in its row, column and box.
pub fn options_for(board: &Vec<Option<u32>>, row: usize, col: usize) -> (r: HashSet<u32>)
    requires
        board@.len() == 81,
        row < 9,
        col < 9,
    ensures
        forall|d: u32| #[trigger] r@.contains(d) <==> is_candidate(
            board@,
            row as int,
            col as int,
            d,
        ),
{
    let rs: HashSet<u32> = row_vals(board, row);
    let cs: HashSet<u32> = col_vals(board, col);
    let bs: HashSet<u32> = cube_vals(board, row, col);
    let mut res: HashSet<u32> = HashSet::new();
    for d in 1..10u32
        invariant
            forall|x: u32| #[trigger] rs@.contains(x) <==> in_row(board@, row as int, x),
            forall|x: u32| #[trigger] cs@.contains(x) <==> in_col(board@, col as int, x),
            forall|x: u32| #[trigger] bs@.contains(x) <==> in_box(board@, row as int, col as int, x),
            forall|x: u32| #[trigger] res@.contains(x) <==> x < d && is_candidate(
                board@,
                row as int,
                col as int,
                x,
            ),
    {
        if !rs.contains(&d) && !cs.contains(&d) && !bs.contains(&d) {
            res.insert(d);
        }
    }
    res
}

} // verus!
