//! The board: 81 cells in row-major order, each holding a digit or nothing,
//! together with the mathematical model the solver's contracts are stated in.

use vstd::prelude::*;

verus! {

/// A Sudoku grid: exactly 81 cells, row-major (`index = row * 9 + col`).
/// `None` is an empty cell; `Some(d)` is a digit placed or given as a clue.
pub struct Sudoku {
    pub board: Vec<Option<u32>>,
}

/// The cell of `s` at `row`/`col`, row-major.
pub open spec fn cell(s: Seq<Option<u32>>, row: int, col: int) -> Option<u32> {
    s[row * 9 + col]
}

/// Every cell holds a digit.
pub open spec fn full(s: Seq<Option<u32>>) -> bool {
    forall|i: int| 0 <= i < s.len() ==> #[trigger] s[i] is Some
}

/// Every placed digit lies in 1..=9.
pub open spec fn in_range(s: Seq<Option<u32>>) -> bool {
    forall|i: int| 0 <= i < s.len() && #[trigger] s[i] is Some ==> 1 <= s[i]->0 <= 9
}

/// Two distinct flat indices share a row.
pub open spec fn same_row(i: int, j: int) -> bool {
    i / 9 == j / 9
}

/// Two distinct flat indices share a column.
pub open spec fn same_col(i: int, j: int) -> bool {
    i % 9 == j % 9
}

/// Two distinct flat indices share a 3x3 box.
pub open spec fn same_box(i: int, j: int) -> bool {
    (i / 9) / 3 == (j / 9) / 3 && (i % 9) / 3 == (j % 9) / 3
}

/// `j` constrains `i`: a different cell in the same row, column or box.
pub open spec fn peers(i: int, j: int) -> bool {
    i != j && (same_row(i, j) || same_col(i, j) || same_box(i, j))
}

/// No digit appears twice in any row, column or box.
pub open spec fn consistent(s: Seq<Option<u32>>) -> bool {
    forall|i: int, j: int| #![trigger s[i], s[j]]
        0 <= i < s.len() && 0 <= j < s.len() && peers(i, j) && s[i] is Some ==> s[i] != s[j]
}

/// A completed, rule-valid grid.
pub open spec fn solved(s: Seq<Option<u32>>) -> bool {
    s.len() == 81 && full(s) && in_range(s) && consistent(s)
}

/// `t` agrees with `s` on every cell that `s` has filled.
pub open spec fn extends(t: Seq<Option<u32>>, s: Seq<Option<u32>>) -> bool {
    t.len() == s.len() && forall|i: int| 0 <= i < s.len() && #[trigger] s[i] is Some ==> t[i] == s[i]
}

/// The first empty cell at or after index `i`, if any.
pub open spec fn first_empty_from(s: Seq<Option<u32>>, i: int) -> Option<int>
    decreases s.len() - i,
{
    if i < 0 || i >= s.len() {
        None
    } else if s[i] is None {
        Some(i)
    } else {
        first_empty_from(s, i + 1)
    }
}

/// The first empty cell of the grid, in increasing flat-index order.
pub open spec fn first_empty(s: Seq<Option<u32>>) -> Option<int> {
    first_empty_from(s, 0)
}

/// The number of empty cells at or after index `i`.
pub open spec fn empties_from(s: Seq<Option<u32>>, i: int) -> nat
    decreases s.len() - i,
{
    if i < 0 || i >= s.len() {
        0
    } else {
        (if s[i] is None { 1nat } else { 0nat }) + empties_from(s, i + 1)
    }
}

/// The number of empty cells of the grid; the solver's termination measure.
pub open spec fn num_empty(s: Seq<Option<u32>>) -> nat {
    empties_from(s, 0)
}

/// What `first_empty_from` returns: the first empty index, with everything
/// before it filled, or `None` when everything from `j` on is filled.
pub proof fn lemma_first_empty_from_spec(s: Seq<Option<u32>>, j: int)
    requires
        0 <= j,
    ensures
        match first_empty_from(s, j) {
            Some(i) => j <= i < s.len() && s[i] is None && (forall|k: int|
                j <= k < i ==> #[trigger] s[k] is Some),
            None => forall|k: int| j <= k < s.len() ==> #[trigger] s[k] is Some,
        },
    decreases s.len() - j,
{
    if j < s.len() {
        if s[j] is Some {
            lemma_first_empty_from_spec(s, j + 1);
        }
    }
}

/// A cell known to be empty, with all earlier cells filled, is the one
/// `first_empty_from` finds.
pub proof fn lemma_first_empty_from_at(s: Seq<Option<u32>>, j: int, i: int)
    requires
        0 <= j <= i < s.len(),
        s[i] is None,
        forall|k: int| j <= k < i ==> #[trigger] s[k] is Some,
    ensures
        first_empty_from(s, j) == Some(i),
    decreases i - j,
{
    if j < i {
        lemma_first_empty_from_at(s, j + 1, i);
    }
}

/// A grid filled from `j` on has no first empty cell there.
pub proof fn lemma_first_empty_from_none(s: Seq<Option<u32>>, j: int)
    requires
        0 <= j,
        forall|k: int| j <= k < s.len() ==> #[trigger] s[k] is Some,
    ensures
        first_empty_from(s, j) is None,
    decreases s.len() - j,
{
    if j < s.len() {
        lemma_first_empty_from_none(s, j + 1);
    }
}

/// Filling one empty cell lowers the count of empty cells at or after `j`
/// exactly when `j` is at or before the filled cell.
pub proof fn lemma_empties_from_fill(s: Seq<Option<u32>>, j: int, k: int, d: u32)
    requires
        0 <= j,
        0 <= k < s.len(),
        s[k] is None,
    ensures
        empties_from(s.update(k, Some(d)), j) + (if j <= k { 1int } else { 0int })
            == empties_from(s, j),
    decreases s.len() - j,
{
    if j < s.len() {
        lemma_empties_from_fill(s, j + 1, k, d);
    }
}

/// Filling one empty cell lowers `num_empty` by exactly one.
pub proof fn lemma_num_empty_fill(s: Seq<Option<u32>>, k: int, d: u32)
    requires
        0 <= k < s.len(),
        s[k] is None,
    ensures
        num_empty(s.update(k, Some(d))) + 1 == num_empty(s),
{
    lemma_empties_from_fill(s, 0, k, d);
}

/// A fresh 81-cell board with every cell empty.
pub fn new_board() -> (r: Vec<Option<u32>>)
    ensures
        r@.len() == 81,
        forall|i: int| 0 <= i < 81 ==> #[trigger] r@[i] is None,
{
    let mut board: Vec<Option<u32>> = Vec::new();
    for k in 0..81usize
        invariant
            board@.len() == k,
            forall|i: int| 0 <= i < k ==> #[trigger] board@[i] is None,
    {
        board.push(None);
    }
    board
}

/// How a flat input value maps to a cell: 0 is empty, anything else a clue.
pub open spec fn flat_cell(x: u32) -> Option<u32> {
    if x == 0 {
        None
    } else {
        Some(x)
    }
}

impl Sudoku {
    /// The board holds exactly 81 cells.
    pub open spec fn wf(&self) -> bool {
        self.board@.len() == 81
    }

    /// An entirely empty board.
    pub fn new() -> (r: Self)
        ensures
            r.wf(),
            forall|i: int| 0 <= i < 81 ==> #[trigger] r.board@[i] is None,
    {
        let board = new_board();
        Self { board }
    }

    /// Builds a board from a flat row-major list: 0 means empty, any other
    /// value a fixed clue. Succeeds exactly when the list holds 81 values;
    /// the values themselves are trusted and not validated.
    pub fn from_flat(values: Vec<u32>) -> (r: Option<Sudoku>)
        ensures
            r is Some <==> values@.len() == 81,
            r matches Some(b) ==> b.wf() && forall|i: int|
                0 <= i < 81 ==> #[trigger] b.board@[i] == flat_cell(values@[i]),
    {
        if values.len() != 81 {
            return None;
        }
        let mut board: Vec<Option<u32>> = Vec::new();
        for k in 0..81usize
            invariant
                values@.len() == 81,
                board@.len() == k,
                forall|i: int| 0 <= i < k ==> #[trigger] board@[i] == flat_cell(values@[i]),
        {
            let x: u32 = values[k];
            if x == 0 {
                board.push(None);
            } else {
                board.push(Some(x));
            }
        }
        Some(Sudoku { board })
    }
}

} // verus!
