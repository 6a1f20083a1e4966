//! The solver: depth-first backtracking over the candidate digits of the
//! first empty cell, verified against a functional model of the search.

use vstd::prelude::*;

use crate::board::{
    cell, consistent, extends, first_empty, full, in_range, lemma_first_empty_from_at,
    lemma_first_empty_from_none, lemma_first_empty_from_spec, lemma_num_empty_fill, num_empty,
    peers, solved, Sudoku,
};
use crate::candidates::{
    in_box, in_col, in_row, is_candidate, lemma_place_candidate_consistent,
    lemma_solution_candidate, options_for,
};
use vstd::arithmetic::div_mod::{
    lemma_fundamental_div_mod, lemma_fundamental_div_mod_converse, lemma_mod_bound,
};

verus! {

broadcast use vstd::std_specs::hash::group_hash_axioms;

/// The flat index and coordinates of the first empty cell, or `None` when
/// every cell is filled.
pub fn find_first_empty(input: &Vec<Option<u32>>) -> (r: Option<(usize, usize)>)
    ensures
        match first_empty(input@) {
            Some(i) => r == Some(((i / 9) as usize, (i % 9) as usize)),
            None => r is None,
        },
{
    let n: usize = input.len();
    for idx in 0..n
        invariant
            n == input@.len(),
            forall|k: int| 0 <= k < idx ==> #[trigger] input@[k] is Some,
    {
        if input[idx].is_none() {
            proof {
                lemma_first_empty_from_at(input@, 0, idx as int);
            }
            return Some((idx / 9, idx % 9));
        }
    }
    proof {
        lemma_first_empty_from_none(input@, 0);
    }
    None
}

/// The model of the whole search on grid `s`: `Some(t)` is the first
/// completion found, trying the candidates of the first empty cell in
/// ascending order; `None` means the search exhausts every branch.
pub open spec fn spec_solve(s: Seq<Option<u32>>) -> Option<Seq<Option<u32>>>
    decreases num_empty(s), 10int,
{
    match first_empty(s) {
        None => Some(s),
        Some(i) => spec_try(s, i, 1),
    }
}

/// The model of one search node: try digits `d..=9` at the empty cell `i`,
/// in ascending order, recursing on the first candidate whose subtree
/// contains a completion.
pub open spec fn spec_try(s: Seq<Option<u32>>, i: int, d: u32) -> Option<Seq<Option<u32>>>
    decreases num_empty(s), 10 - d,
{
    if !(0 <= i < s.len() && s[i] is None) || d > 9 {
        None
    } else {
        proof {
            lemma_num_empty_fill(s, i, d);
        }
        if is_candidate(s, i / 9, i % 9, d) && spec_solve(s.update(i, Some(d))) is Some {
            spec_solve(s.update(i, Some(d)))
        } else {
            spec_try(s, i, (d + 1) as u32)
        }
    }
}

/// What one call of the solver does to a grid `s`: on success the board
/// becomes the completion the model finds; on failure it is left untouched.
pub open spec fn solve_post(s: Seq<Option<u32>>, r: bool, b: Seq<Option<u32>>) -> bool {
    match spec_solve(s) {
        Some(t) => r == true && b == t,
        None => r == false && b == s,
    }
}

/// Solves the board in place. Returns `true` and leaves the board at the
/// first completion the search finds (clues untouched), or `false` and
/// leaves every cell exactly as it was.
#[verifier::loop_isolation(false)]
pub fn solve_sudoku(input: &mut Sudoku) -> (r: bool)
    requires
        old(input).wf(),
    ensures
        final(input).wf(),
        solve_post(old(input).board@, r, final(input).board@),
    decreases num_empty(old(input).board@),
{
    let ghost s0 = input.board@;
    match find_first_empty(&input.board) {
        None => true,
        Some((row, col)) => {
            proof {
                lemma_first_empty_from_spec(s0, 0);
                let i: int = first_empty(s0)->0;
                lemma_fundamental_div_mod(i, 9);
                lemma_mod_bound(i, 9);
            }
            assert(row < 9 && col < 9);
            let idx: usize = row * 9 + col;
            proof {
                assert(first_empty(s0) == Some(idx as int));
                assert(row == idx / 9 && col == idx % 9);
            }
            let options = options_for(&input.board, row, col);
            let mut d: u32 = 1;
            while d <= 9
                invariant
                    input.wf(),
                    input.board@ == s0,
                    1 <= d <= 10,
                    spec_try(s0, idx as int, d) == spec_solve(s0),
                decreases 10 - d,
            {
                if options.contains(&d) {
                    input.board[idx] = Some(d);
                    proof {
                        lemma_num_empty_fill(s0, idx as int, d);
                    }
                    if solve_sudoku(input) {
                        return true;
                    }
                    input.board[idx] = None;
                    proof {
                        assert(input.board@ =~= s0);
                    }
                }
                d = d + 1;
            }
            false
        },
    }
}

/// Any completion the search model returns fills every cell and keeps every
/// clue; it stays in range and rule-consistent whenever the input was.
pub proof fn lemma_solve_props(s: Seq<Option<u32>>)
    requires
        s.len() == 81,
    ensures
        spec_solve(s) matches Some(t) ==> {
            &&& t.len() == 81
            &&& full(t)
            &&& extends(t, s)
            &&& (in_range(s) ==> in_range(t))
            &&& (consistent(s) ==> consistent(t))
        },
    decreases num_empty(s), 10int,
{
    lemma_first_empty_from_spec(s, 0);
    match first_empty(s) {
        None => {
            assert(extends(s, s));
        },
        Some(i) => {
            lemma_try_props(s, i, 1);
        },
    }
}

/// The per-node step of `lemma_solve_props`, by induction over the digits
/// still to try at the empty cell `i`.
pub proof fn lemma_try_props(s: Seq<Option<u32>>, i: int, d: u32)
    requires
        s.len() == 81,
        0 <= i < 81,
        s[i] is None,
    ensures
        spec_try(s, i, d) matches Some(t) ==> {
            &&& t.len() == 81
            &&& full(t)
            &&& extends(t, s)
            &&& (in_range(s) ==> in_range(t))
            &&& (consistent(s) ==> consistent(t))
        },
    decreases num_empty(s), 10 - d,
{
    if d <= 9 {
        let s1 = s.update(i, Some(d));
        lemma_num_empty_fill(s, i, d);
        lemma_fundamental_div_mod(i, 9);
        lemma_mod_bound(i, 9);
        if is_candidate(s, i / 9, i % 9, d) && spec_solve(s1) is Some {
            lemma_solve_props(s1);
            let t = spec_solve(s1)->0;
            assert forall|k: int| 0 <= k < 81 && #[trigger] s[k] is Some implies t[k] == s[k] by {
                assert(s1[k] == s[k]);
            }
            assert(extends(t, s));
            if in_range(s) {
                assert forall|k: int| 0 <= k < 81 && #[trigger] s1[k] is Some implies 1 <= s1[k]->0
                    <= 9 by {
                    if k != i {
                        assert(s1[k] == s[k]);
                    }
                }
                assert(in_range(s1));
            }
            if consistent(s) {
                lemma_place_candidate_consistent(s, i / 9, i % 9, d);
                assert(consistent(s1));
            }
        } else {
            lemma_try_props(s, i, (d + 1) as u32);
        }
    }
}

/// Whenever some solved board extends `s`, the search on `s` succeeds.
pub proof fn lemma_solve_complete(s: Seq<Option<u32>>, t: Seq<Option<u32>>)
    requires
        s.len() == 81,
        solved(t),
        extends(t, s),
    ensures
        spec_solve(s) is Some,
    decreases num_empty(s), 10int,
{
    lemma_first_empty_from_spec(s, 0);
    match first_empty(s) {
        None => {},
        Some(i) => {
            lemma_fundamental_div_mod(i, 9);
            lemma_mod_bound(i, 9);
            lemma_solution_candidate(s, t, i / 9, i % 9);
            lemma_try_complete(s, i, 1, t);
        },
    }
}

/// The per-node step of `lemma_solve_complete`: the digit the solution
/// holds at cell `i` has not been passed over yet, so some branch succeeds.
pub proof fn lemma_try_complete(s: Seq<Option<u32>>, i: int, d: u32, t: Seq<Option<u32>>)
    requires
        s.len() == 81,
        0 <= i < 81,
        s[i] is None,
        solved(t),
        extends(t, s),
        is_candidate(s, i / 9, i % 9, t[i]->0),
        1 <= d <= t[i]->0,
    ensures
        spec_try(s, i, d) is Some,
    decreases num_empty(s), 10 - d,
{
    let d0: u32 = t[i]->0;
    assert(t[i] is Some);
    assert(1 <= d0 <= 9);
    lemma_num_empty_fill(s, i, d);
    if d == d0 {
        let s1 = s.update(i, Some(d0));
        assert(t[i] == Some(d0));
        assert forall|k: int| 0 <= k < 81 && #[trigger] s1[k] is Some implies t[k] == s1[k] by {
            if k != i {
                assert(s1[k] == s[k]);
            }
        }
        assert(extends(t, s1));
        lemma_solve_complete(s1, t);
    } else {
        if !(is_candidate(s, i / 9, i % 9, d) && spec_solve(s.update(i, Some(d))) is Some) {
            lemma_try_complete(s, i, (d + 1) as u32, t);
        }
    }
}

/// Law: on a rule-consistent board whose digits are in range, a successful
/// solve leaves a fully solved board that extends the input.
pub proof fn lemma_solve_sound(s: Seq<Option<u32>>, t: Seq<Option<u32>>)
    requires
        s.len() == 81,
        in_range(s),
        consistent(s),
        spec_solve(s) == Some(t),
    ensures
        solved(t),
        extends(t, s),
{
    lemma_solve_props(s);
}

/// Law: a successful solve keeps every clue of the input unchanged at its
/// original position, and fills every remaining cell.
pub proof fn lemma_solve_preserves_clues(s: Seq<Option<u32>>, t: Seq<Option<u32>>)
    requires
        s.len() == 81,
        spec_solve(s) == Some(t),
    ensures
        extends(t, s),
        full(t),
{
    lemma_solve_props(s);
}

/// Law: whenever some solved board extends the input, the search finds one.
pub proof fn lemma_solve_finds_solution(s: Seq<Option<u32>>, t: Seq<Option<u32>>)
    requires
        s.len() == 81,
        solved(t),
        extends(t, s),
    ensures
        spec_solve(s) is Some,
{
    lemma_solve_complete(s, t);
}

/// Law: when the search fails, no solved board extends the input — together
/// with `solve_post`, a `false` result means the puzzle is unsolvable and
/// the board is handed back exactly as constructed.
pub proof fn lemma_failure_means_unsolvable(s: Seq<Option<u32>>, t: Seq<Option<u32>>)
    requires
        s.len() == 81,
        spec_solve(s) is None,
        solved(t),
    ensures
        !extends(t, s),
{
    if extends(t, s) {
        lemma_solve_complete(s, t);
    }
}

/// Law: an already-complete board solves immediately, with no cell touched.
pub proof fn lemma_solve_full_board(s: Seq<Option<u32>>)
    requires
        full(s),
    ensures
        spec_solve(s) == Some(s),
{
    lemma_first_empty_from_none(s, 0);
}

/// Nine pairwise-distinct digits drawn from 1..=9 must cover each of them.
#[verifier::rlimit(100)]
proof fn lemma_nine_distinct_digits(vs: Seq<u32>, d: u32)
    requires
        vs.len() == 9,
        forall|k: int| 0 <= k < 9 ==> 1 <= #[trigger] vs[k] <= 9,
        forall|k1: int, k2: int| 0 <= k1 < k2 < 9 ==> vs[k1] != vs[k2],
        1 <= d <= 9,
    ensures
        exists|k: int| 0 <= k < 9 && vs[k] == d,
{
    if !(exists|k: int| 0 <= k < 9 && vs[k] == d) {
        let digits = Set::<u32>::empty().insert(1).insert(2).insert(3).insert(4).insert(5).insert(
            6,
        ).insert(7).insert(8).insert(9);
        assert(digits.len() == 9);
        let used = Set::<u32>::empty().insert(vs[0]).insert(vs[1]).insert(vs[2]).insert(
            vs[3],
        ).insert(vs[4]).insert(vs[5]).insert(vs[6]).insert(vs[7]).insert(vs[8]);
        assert(used.len() == 9) by {
            assert(vs[0] != vs[1] && vs[0] != vs[2] && vs[0] != vs[3] && vs[0] != vs[4] && vs[0]
                != vs[5] && vs[0] != vs[6] && vs[0] != vs[7] && vs[0] != vs[8]);
            assert(vs[1] != vs[2] && vs[1] != vs[3] && vs[1] != vs[4] && vs[1] != vs[5] && vs[1]
                != vs[6] && vs[1] != vs[7] && vs[1] != vs[8]);
            assert(vs[2] != vs[3] && vs[2] != vs[4] && vs[2] != vs[5] && vs[2] != vs[6] && vs[2]
                != vs[7] && vs[2] != vs[8]);
            assert(vs[3] != vs[4] && vs[3] != vs[5] && vs[3] != vs[6] && vs[3] != vs[7] && vs[3]
                != vs[8]);
            assert(vs[4] != vs[5] && vs[4] != vs[6] && vs[4] != vs[7] && vs[4] != vs[8]);
            assert(vs[5] != vs[6] && vs[5] != vs[7] && vs[5] != vs[8]);
            assert(vs[6] != vs[7] && vs[6] != vs[8]);
            assert(vs[7] != vs[8]);
        }
        let rest = digits.remove(d);
        assert(rest.len() == 8);
        assert(used.subset_of(rest)) by {
            assert forall|x: u32| used.contains(x) implies rest.contains(x) by {
                assert(1 <= x <= 9);
                assert(x != d);
                assert(digits.contains(x));
            }
        }
        vstd::set_lib::lemma_len_subset(used, rest);
        assert(false);
    }
}

/// Law: in a solved board, every row holds every digit 1..=9 — with
/// `consistent` ruling out repeats, each row is a permutation of 1..=9.
pub proof fn lemma_solved_row_has_digit(t: Seq<Option<u32>>, row: int, d: u32)
    requires
        solved(t),
        0 <= row < 9,
        1 <= d <= 9,
    ensures
        in_row(t, row, d),
{
    let vs = Seq::new(9, |c: int| t[row * 9 + c]->0);
    assert forall|k: int| 0 <= k < 9 implies 1 <= #[trigger] vs[k] <= 9 by {
        assert(t[row * 9 + k] is Some);
    }
    assert forall|k1: int, k2: int| 0 <= k1 < k2 < 9 implies vs[k1] != vs[k2] by {
        let j1: int = row * 9 + k1;
        let j2: int = row * 9 + k2;
        lemma_fundamental_div_mod_converse(j1, 9, row, k1);
        lemma_fundamental_div_mod_converse(j2, 9, row, k2);
        assert(peers(j1, j2));
        assert(t[j1] is Some && t[j2] is Some);
    }
    lemma_nine_distinct_digits(vs, d);
    let k: int = choose|k: int| 0 <= k < 9 && vs[k] == d;
    assert(t[row * 9 + k] is Some);
    assert(cell(t, row, k) == Some(d));
}

/// Law: in a solved board, every column holds every digit 1..=9.
pub proof fn lemma_solved_col_has_digit(t: Seq<Option<u32>>, col: int, d: u32)
    requires
        solved(t),
        0 <= col < 9,
        1 <= d <= 9,
    ensures
        in_col(t, col, d),
{
    let vs = Seq::new(9, |r: int| t[r * 9 + col]->0);
    assert forall|k: int| 0 <= k < 9 implies 1 <= #[trigger] vs[k] <= 9 by {
        assert(t[k * 9 + col] is Some);
    }
    assert forall|k1: int, k2: int| 0 <= k1 < k2 < 9 implies vs[k1] != vs[k2] by {
        let j1: int = k1 * 9 + col;
        let j2: int = k2 * 9 + col;
        lemma_fundamental_div_mod_converse(j1, 9, k1, col);
        lemma_fundamental_div_mod_converse(j2, 9, k2, col);
        assert(peers(j1, j2));
        assert(t[j1] is Some && t[j2] is Some);
    }
    lemma_nine_distinct_digits(vs, d);
    let k: int = choose|k: int| 0 <= k < 9 && vs[k] == d;
    assert(t[k * 9 + col] is Some);
    assert(cell(t, k, col) == Some(d));
}

/// Law: in a solved board, every 3x3 box holds every digit 1..=9.
pub proof fn lemma_solved_box_has_digit(t: Seq<Option<u32>>, row: int, col: int, d: u32)
    requires
        solved(t),
        0 <= row < 9,
        0 <= col < 9,
        1 <= d <= 9,
    ensures
        in_box(t, row, col, d),
{
    let br: int = row / 3;
    let bc: int = col / 3;
    lemma_fundamental_div_mod(row, 3);
    lemma_mod_bound(row, 3);
    lemma_fundamental_div_mod(col, 3);
    lemma_mod_bound(col, 3);
    let vs = Seq::new(9, |k: int| t[(br * 3 + k / 3) * 9 + (bc * 3 + k % 3)]->0);
    assert forall|k: int| 0 <= k < 9 implies 1 <= #[trigger] vs[k] <= 9 by {
        lemma_fundamental_div_mod(k, 3);
        lemma_mod_bound(k, 3);
        assert(t[(br * 3 + k / 3) * 9 + (bc * 3 + k % 3)] is Some);
    }
    assert forall|k1: int, k2: int| 0 <= k1 < k2 < 9 implies vs[k1] != vs[k2] by {
        lemma_fundamental_div_mod(k1, 3);
        lemma_mod_bound(k1, 3);
        lemma_fundamental_div_mod(k2, 3);
        lemma_mod_bound(k2, 3);
        let j1: int = (br * 3 + k1 / 3) * 9 + (bc * 3 + k1 % 3);
        let j2: int = (br * 3 + k2 / 3) * 9 + (bc * 3 + k2 % 3);
        lemma_fundamental_div_mod_converse(j1, 9, br * 3 + k1 / 3, bc * 3 + k1 % 3);
        lemma_fundamental_div_mod_converse(j2, 9, br * 3 + k2 / 3, bc * 3 + k2 % 3);
        lemma_fundamental_div_mod_converse(br * 3 + k1 / 3, 3, br, k1 / 3);
        lemma_fundamental_div_mod_converse(br * 3 + k2 / 3, 3, br, k2 / 3);
        lemma_fundamental_div_mod_converse(bc * 3 + k1 % 3, 3, bc, k1 % 3);
        lemma_fundamental_div_mod_converse(bc * 3 + k2 % 3, 3, bc, k2 % 3);
        assert(j1 != j2);
        assert(peers(j1, j2));
        assert(t[j1] is Some && t[j2] is Some);
    }
    lemma_nine_distinct_digits(vs, d);
    let k: int = choose|k: int| 0 <= k < 9 && vs[k] == d;
    lemma_fundamental_div_mod(k, 3);
    lemma_mod_bound(k, 3);
    let r: int = br * 3 + k / 3;
    let c: int = bc * 3 + k % 3;
    assert(t[r * 9 + c] is Some);
    assert(cell(t, r, c) == Some(d));
    assert(row / 3 * 3 <= r < row / 3 * 3 + 3 && col / 3 * 3 <= c < col / 3 * 3 + 3);
}

/// Law: solving is deterministic — two runs on the same input board return
/// the same answer and leave identical boards.
pub proof fn lemma_solve_deterministic(
    s: Seq<Option<u32>>,
    r1: bool,
    b1: Seq<Option<u32>>,
    r2: bool,
    b2: Seq<Option<u32>>,
)
    requires
        solve_post(s, r1, b1),
        solve_post(s, r2, b2),
    ensures
        r1 == r2,
        b1 == b2,
{
}

} // verus!
