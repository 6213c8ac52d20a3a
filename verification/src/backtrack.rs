//! The search that takes over where propagation stalls: it guesses the
//! colour of one undecided cell, propagates, and learns from a contradiction.

use vstd::prelude::*;
use crate::common::{
    Board, Cell, Hint, Input, Mask, Puzzle, Solution, State, grid, opposite,
    lemma_column_mask_bits, lemma_flip_opposite, lemma_with_cell,
};
use crate::bitop::{
    bit, includes, low_bits, group_mask_bits, lemma_disjoint_bits, lemma_includes_bits,
    lemma_mask_ext, lemma_subset_reflexive,
};
use crate::filling::{line_fillings, must_white, lemma_forced_cells, lemma_no_hints};
use crate::propagate::{
    fits, is_propagation, propagation, settled, weight, lemma_propagation_some, lemma_weight_le,
};
use crate::solution::{
    hints_positive, is_solution, runs_match, solves, lemma_settled_tallied, lemma_solution_by_runs,
    lemma_solution_settled, lemma_solves_cells,
};
use crate::search_line::deterministic_fill;

verus! {

/// An undecided cell `(i, j)` with the numbers of its neighbours that are
/// known black and known white.
#[derive(Clone, Copy, Debug)]
pub struct Candidate {
    pub i: usize,
    pub j: usize,
    pub count_black: usize,
    pub count_white: usize,
}

/// One if `(i, j)` is a cell of the grid that is known black, else zero.
pub open spec fn black_at(board: Board, i: int, j: int) -> int {
    if board.has_cell(i, j) && board.is_black(i, j) {
        1
    } else {
        0
    }
}

/// One if `(i, j)` is a cell of the grid that is known white, else zero.
pub open spec fn white_at(board: Board, i: int, j: int) -> int {
    if board.has_cell(i, j) && board.is_white(i, j) {
        1
    } else {
        0
    }
}

/// How many of the four neighbours of `(i, j)` are known black.
pub open spec fn black_neighbours(board: Board, i: int, j: int) -> int {
    black_at(board, i + 1, j) + black_at(board, i - 1, j) + black_at(board, i, j + 1) + black_at(
        board,
        i,
        j - 1,
    )
}

/// How many of the four neighbours of `(i, j)` are known white.
pub open spec fn white_neighbours(board: Board, i: int, j: int) -> int {
    white_at(board, i + 1, j) + white_at(board, i - 1, j) + white_at(board, i, j + 1) + white_at(
        board,
        i,
        j - 1,
    )
}

/// The colour that the search tries first in a cell: the one that fewer of
/// the neighbours have, black where neither has the majority.
pub open spec fn first_guess(c: Candidate) -> Cell {
    if c.count_black > c.count_white {
        Cell::White
    } else {
        Cell::Black
    }
}

/// Cell `(i, j)` of the board as a candidate.
pub open spec fn candidate_at(board: Board, i: int, j: int) -> Candidate {
    Candidate {
        i: i as usize,
        j: j as usize,
        count_black: black_neighbours(board, i, j) as usize,
        count_white: white_neighbours(board, i, j) as usize,
    }
}

/// The undecided cells among the first `n` cells of row `i`, from the left.
pub open spec fn empties_in_row(board: Board, i: int, n: int) -> Seq<Candidate>
    decreases n,
{
    if n <= 0 {
        Seq::empty()
    } else if board.is_empty(i, n - 1) {
        empties_in_row(board, i, n - 1).push(candidate_at(board, i, n - 1))
    } else {
        empties_in_row(board, i, n - 1)
    }
}

/// The undecided cells of the first `m` rows in reading order.
pub open spec fn empties(board: Board, m: int) -> Seq<Candidate>
    decreases m,
{
    if m <= 0 {
        Seq::empty()
    } else {
        empties(board, m - 1) + empties_in_row(board, m - 1, board.width)
    }
}

/// The candidate describes an undecided cell of the board.
pub open spec fn is_candidate(board: Board, c: Candidate) -> bool {
    &&& board.has_cell(c.i as int, c.j as int)
    &&& board.is_empty(c.i as int, c.j as int)
    &&& c == candidate_at(board, c.i as int, c.j as int)
}

/// `a` is tried before `b`: it has more black neighbours, or as many and
/// fewer white ones, or the same of both and comes first in reading order.
pub open spec fn precedes(a: Candidate, b: Candidate) -> bool {
    ||| a.count_black > b.count_black
    ||| a.count_black == b.count_black && a.count_white < b.count_white
    ||| a.count_black == b.count_black && a.count_white == b.count_white && a.i < b.i
    ||| a.count_black == b.count_black && a.count_white == b.count_white && a.i == b.i && a.j
        < b.j
}

/// The order in which the search tries the candidates.
pub open spec fn order() -> spec_fn(Candidate, Candidate) -> bool {
    |a: Candidate, b: Candidate| !precedes(b, a)
}

/// No candidate stands behind one that it precedes.
pub open spec fn ranked(s: Seq<Candidate>) -> bool {
    forall|a: int, b: int| 0 <= a < b < s.len() ==> !precedes(s[b], s[a])
}

/// The undecided cells of the board in the order in which the search tries
/// them: most black neighbours first, then fewest white neighbours, then
/// reading order.
pub open spec fn candidates(board: Board) -> Seq<Candidate> {
    empties(board, board.height).sort_by(order())
}

/// A number that falls with every cell that becomes known.
pub open spec fn measure(puzzle: Puzzle, board: Board) -> int {
    2 * puzzle.height * 0xffff_ffff_ffff_ffff - weight(board)
}

/// What the search makes of a settled board that does not solve the puzzle:
/// the board that solves it, where the search finds one.
pub open spec fn search(puzzle: Puzzle, board: Board) -> Option<Board>
    decreases measure(puzzle, board), 1int, 0int,
{
    attempts(puzzle, board, candidates(board), 0)
}

/// What the search makes of the candidates from the `k`-th on. It
/// propagates from the board with the candidate's first guess recorded. If
/// that solves the puzzle, the search ends with the solving board. If it
/// stalls, the next candidate is tried. If it fails, the guess is refuted:
/// the search propagates from the board with the other colour recorded,
/// ends without a solution if this fails too, ends with the solving board
/// if this solves the puzzle, and else starts again from what it reached.
/// The board that it starts again from knows more than `board`, so its
/// measure is smaller (`lemma_forced_measure`); the test of the measure is
/// there to show that the search ends.
pub open spec fn attempts(puzzle: Puzzle, board: Board, cells: Seq<Candidate>, k: int) -> Option<
    Board,
>
    decreases measure(puzzle, board), 0int, cells.len() - k,
{
    if k < 0 || k >= cells.len() {
        None
    } else {
        let c = cells[k];
        let guessed = board.with_cell(c.i as int, c.j as int, first_guess(c));
        let forced = board.with_cell(c.i as int, c.j as int, opposite(first_guess(c)));
        match propagation(puzzle, guessed) {
            Some(reached) => if reached.tallied(puzzle) {
                Some(reached)
            } else {
                attempts(puzzle, board, cells, k + 1)
            },
            None => match propagation(puzzle, forced) {
                Some(reached) => if reached.tallied(puzzle) {
                    Some(reached)
                } else if 0 <= measure(puzzle, reached) < measure(puzzle, board) {
                    search(puzzle, reached)
                } else {
                    None
                },
                None => None,
            },
        }
    }
}

/// What solving makes of a puzzle: the board that propagation from the
/// blank board reaches, if it solves the puzzle, else what the search makes
/// of that board.
pub open spec fn solving(puzzle: Puzzle) -> Option<Board> {
    match propagation(puzzle, Board::blank(puzzle.height, puzzle.width)) {
        Some(reached) => if reached.tallied(puzzle) {
            Some(reached)
        } else {
            search(puzzle, reached)
        },
        None => None,
    }
}

/// The order of the candidates is a total order.
pub proof fn lemma_order_total()
    ensures
        vstd::relations::total_ordering(order()),
{
    let r = order();
    assert(vstd::relations::reflexive(r));
    assert(vstd::relations::antisymmetric(r)) by {
        assert forall|x: Candidate, y: Candidate| #[trigger] r(x, y) && #[trigger] r(y, x) implies x
            == y by {}
    }
    assert(vstd::relations::transitive(r));
    assert(vstd::relations::strongly_connected(r));
}

/// The candidates of a board are its undecided cells, each once, in their
/// order, and no other sequence is that.
pub proof fn lemma_candidates(board: Board, s: Seq<Candidate>)
    ensures
        ranked(candidates(board)),
        candidates(board).to_multiset() == empties(board, board.height).to_multiset(),
        ranked(s) && s.to_multiset() == empties(board, board.height).to_multiset() ==> s
            == candidates(board),
{
    let cells = empties(board, board.height);
    lemma_order_total();
    cells.lemma_sort_by_ensures(order());
    assert(ranked(candidates(board))) by {
        assert forall|a: int, b: int| 0 <= a < b < candidates(board).len() implies !precedes(
            candidates(board)[b],
            candidates(board)[a],
        ) by {
            assert(order()(candidates(board)[a], candidates(board)[b]));
        }
    }
    if ranked(s) && s.to_multiset() == cells.to_multiset() {
        assert(vstd::relations::sorted_by(s, order()));
        vstd::seq_lib::lemma_sorted_unique(s, candidates(board), order());
    }
}

/// Whether `a` is tried before `b`.
fn comes_before(a: &Candidate, b: &Candidate) -> (r: bool)
    ensures
        r == precedes(*a, *b),
{
    a.count_black > b.count_black || (a.count_black == b.count_black && (a.count_white
        < b.count_white || (a.count_white == b.count_white && (a.i < b.i || (a.i == b.i && a.j
        < b.j)))))
}

/// Counts the cell `(i, j)` under the colour that it is known to have.
fn count_neighbor(
    i: usize,
    j: usize,
    state: &State,
    count_black: &mut usize,
    count_white: &mut usize,
)
    requires
        state@.shaped(),
        state@.has_cell(i as int, j as int),
        *old(count_black) < 4,
        *old(count_white) < 4,
    ensures
        *final(count_black) == *old(count_black) + black_at(state@, i as int, j as int),
        *final(count_white) == *old(count_white) + white_at(state@, i as int, j as int),
{
    if state.black(i, j) {
        *count_black += 1;
    }
    if state.white(i, j) {
        *count_white += 1;
    }
}

/// The undecided cells of the board in reading order, each with the numbers
/// of its decided neighbours.
fn empty_cells(input: &Input, state: &State) -> (r: Vec<Candidate>)
    requires
        fits(input@, state@),
    ensures
        r@ == empties(state@, state@.height),
        forall|k: int| 0 <= k < r.len() ==> is_candidate(state@, #[trigger] r[k]),
{
    let mut empty: Vec<Candidate> = Vec::new();
    let mut i: usize = 0;
    while i < input.height
        invariant
            fits(input@, state@),
            i <= input.height,
            empty@ == empties(state@, i as int),
            forall|k: int| 0 <= k < empty.len() ==> is_candidate(state@, #[trigger] empty[k]),
        decreases input.height - i,
    {
        let mut j: usize = 0;
        assert(empty@ + empties_in_row(state@, i as int, 0) =~= empty@);
        while j < input.width
            invariant
                fits(input@, state@),
                i < input.height,
                j <= input.width,
                empty@ == empties(state@, i as int) + empties_in_row(state@, i as int, j as int),
                forall|k: int| 0 <= k < empty.len() ==> is_candidate(state@, #[trigger] empty[k]),
            decreases input.width - j,
        {
            if state.empty(i, j) {
                let mut count_black: usize = 0;
                let mut count_white: usize = 0;
                if i + 1 < input.height {
                    count_neighbor(i + 1, j, state, &mut count_black, &mut count_white);
                }
                if 0 < i {
                    count_neighbor(i - 1, j, state, &mut count_black, &mut count_white);
                }
                if j + 1 < input.width {
                    count_neighbor(i, j + 1, state, &mut count_black, &mut count_white);
                }
                if 0 < j {
                    count_neighbor(i, j - 1, state, &mut count_black, &mut count_white);
                }
                empty.push(Candidate { i, j, count_black, count_white });
                assert(empty@ =~= empties(state@, i as int) + empties_in_row(
                    state@,
                    i as int,
                    j as int + 1,
                ));
            }
            j += 1;
        }
        i += 1;
    }
    empty
}

/// The candidates in the order in which the search tries them.
fn rank(cells: Vec<Candidate>) -> (r: Vec<Candidate>)
    ensures
        r@.to_multiset() == cells@.to_multiset(),
        r@ == cells@.sort_by(order()),
{
    let mut sorted: Vec<Candidate> = Vec::new();
    let mut k: usize = 0;
    assert(cells@.take(0) =~= Seq::<Candidate>::empty());
    while k < cells.len()
        invariant
            k <= cells.len(),
            sorted@.to_multiset() == cells@.take(k as int).to_multiset(),
            ranked(sorted@),
        decreases cells.len() - k,
    {
        let c = cells[k];
        let mut at: usize = 0;
        while at < sorted.len() && !comes_before(&c, &sorted[at])
            invariant
                at <= sorted.len(),
                forall|a: int| 0 <= a < at ==> !precedes(c, #[trigger] sorted[a]),
            decreases sorted.len() - at,
        {
            at += 1;
        }
        let ghost before = sorted@;
        sorted.insert(at, c);
        proof {
            assert(cells@.take(k as int + 1) =~= cells@.take(k as int).push(c));
            assert(sorted@ == before.insert(at as int, c));
            vstd::seq_lib::to_multiset_insert(before, at as int, c);
            vstd::seq_lib::to_multiset_build(cells@.take(k as int), c);
            lemma_insert_ranked(before, at as int, c);
        }
        k += 1;
    }
    proof {
        assert(cells@.take(k as int) =~= cells@);
        lemma_order_total();
        cells@.lemma_sort_by_ensures(order());
        assert(vstd::relations::sorted_by(sorted@, order()));
        vstd::seq_lib::lemma_sorted_unique(sorted@, cells@.sort_by(order()), order());
    }
    sorted
}

/// Candidates stay in order when one is put before the first that it
/// precedes.
proof fn lemma_insert_ranked(s: Seq<Candidate>, at: int, c: Candidate)
    requires
        ranked(s),
        0 <= at <= s.len(),
        forall|a: int| 0 <= a < at ==> !precedes(c, #[trigger] s[a]),
        at < s.len() ==> precedes(c, s[at]),
    ensures
        ranked(s.insert(at, c)),
{
    let t = s.insert(at, c);
    assert forall|a: int, b: int| 0 <= a < b < t.len() implies !precedes(t[b], t[a]) by {
        if a == at {
            assert(t[b] == s[b - 1]);
            if b - 1 > at {
                assert(!precedes(s[b - 1], s[at]));
            }
        } else if b == at {
            assert(t[a] == s[a]);
        } else {
            let a0 = if a < at { a } else { a - 1 };
            let b0 = if b < at { b } else { b - 1 };
            assert(t[a] == s[a0]);
            assert(t[b] == s[b0]);
        }
    }
}

/// Every candidate of a ranking was a candidate before it.
proof fn lemma_rank_keeps(board: Board, cells: Seq<Candidate>, sorted: Seq<Candidate>)
    requires
        sorted.to_multiset() == cells.to_multiset(),
        forall|k: int| 0 <= k < cells.len() ==> is_candidate(board, #[trigger] cells[k]),
    ensures
        forall|k: int| 0 <= k < sorted.len() ==> is_candidate(board, #[trigger] sorted[k]),
{
    assert forall|k: int| 0 <= k < sorted.len() implies is_candidate(
        board,
        #[trigger] sorted[k],
    ) by {
        vstd::seq_lib::to_multiset_contains(sorted, sorted[k]);
        vstd::seq_lib::to_multiset_contains(cells, sorted[k]);
        assert(sorted.contains(sorted[k]));
        let at = choose|at: int| 0 <= at < cells.len() && cells[at] == sorted[k];
        assert(is_candidate(board, cells[at]));
    }
}

/// Searches from a settled board that does not solve the puzzle yet: tries
/// the undecided cells in their order, each with its first guess, until
/// propagation from a guess solves the puzzle or refutes the guess; a
/// refuted guess decides the cell, and the search goes on from there.
fn solve_impl(input: &Input, state: &State) -> (r: Option<Solution>)
    requires
        settled(input@, state@),
        !state@.tallied(input@),
    ensures
        match r {
            Some(sol) => search(input@, state@) matches Some(b) && grid(sol@) == b.cells()
                && is_solution(input@, grid(sol@)),
            None => search(input@, state@) is None,
        },
    decreases measure(input@, state@),
{
    let cells = empty_cells(input, state);
    let empty_cells = rank(cells);
    proof {
        lemma_rank_keeps(state@, cells@, empty_cells@);
    }
    let mut k: usize = 0;
    while k < empty_cells.len()
        invariant
            settled(input@, state@),
            k <= empty_cells.len(),
            forall|k: int|
                0 <= k < empty_cells.len() ==> is_candidate(state@, #[trigger] empty_cells[k]),
            search(input@, state@) == attempts(input@, state@, empty_cells@, k as int),
        decreases empty_cells.len() - k,
    {
        let c = empty_cells[k];
        assert(is_candidate(state@, c));
        let i: usize = c.i;
        let j: usize = c.j;
        // The first guess is the colour that fewer of the neighbours have.
        let mut hypothesis = state.clone();
        proof {
            lemma_with_cell(state@, i as int, j as int, first_guess(c));
            lemma_with_cell(state@, i as int, j as int, opposite(first_guess(c)));
            lemma_flip_opposite(state@, i as int, j as int, first_guess(c));
        }
        if c.count_black > c.count_white {
            hypothesis.set(i, j, Cell::White);
        } else {
            hypothesis.set(i, j, Cell::Black);
        }
        match deterministic_fill(input, &hypothesis) {
            Some(filled_state) => {
                if filled_state.solved(input) {
                    proof {
                        lemma_settled_tallied(input@, filled_state@);
                        lemma_solves_cells(input@, filled_state@);
                    }
                    return Some(filled_state.to_solution());
                }
            },
            None => {
                // The guess is refuted, so the cell has the other colour.
                hypothesis.flip(i, j);
                match deterministic_fill(input, &hypothesis) {
                    Some(filled_new_state) => {
                        if filled_new_state.solved(input) {
                            proof {
                                lemma_settled_tallied(input@, filled_new_state@);
                                lemma_solves_cells(input@, filled_new_state@);
                            }
                            return Some(filled_new_state.to_solution());
                        } else {
                            proof {
                                lemma_weight_le(state@, hypothesis@);
                                lemma_weight_le(hypothesis@, filled_new_state@);
                            }
                            return solve_impl(input, &filled_new_state);
                        }
                    },
                    None => {
                        return None;
                    },
                }
            },
        }
        k += 1;
    }
    None
}

/// Solves the puzzle: propagates from the blank board and, where that
/// stalls, searches on. The result is what `solving` says, and a grid that
/// is returned is a solution of the puzzle.
pub fn solve(input: &Input) -> (r: Option<Solution>)
    requires
        input@.wf(),
    ensures
        match r {
            Some(sol) => solving(input@) matches Some(b) && grid(sol@) == b.cells() && is_solution(
                input@,
                grid(sol@),
            ),
            None => solving(input@) is None,
        },
        (forall|g: Seq<Seq<Cell>>| !is_solution(input@, g)) ==> r is None,
        hints_positive(input@) ==> (r matches Some(sol) ==> runs_match(input@, grid(sol@))),
{
    proof {
        if hints_positive(input@) {
            assert forall|g: Seq<Seq<Cell>>| is_solution(input@, g) implies runs_match(
                input@,
                g,
            ) by {
                lemma_solution_by_runs(input@, g);
            }
        }
    }
    let state = State::new(input.height, input.width);
    proof {
        lemma_blank_wf(input@.height, input@.width);
    }
    match deterministic_fill(input, &state) {
        Some(state) => {
            if state.solved(input) {
                proof {
                    lemma_settled_tallied(input@, state@);
                    lemma_solves_cells(input@, state@);
                }
                Some(state.to_solution())
            } else {
                solve_impl(input, &state)
            }
        },
        None => None,
    }
}

/// The blank board is well formed.
proof fn lemma_blank_wf(height: int, width: int)
    requires
        0 <= width < 64,
        0 <= height,
    ensures
        Board::blank(height, width).wf(),
{
    broadcast use group_mask_bits;

    lemma_disjoint_bits(0, 0);
    lemma_includes_bits(low_bits(width), 0);
}

/// A puzzle without any hint is solved by the grid that is all white.
pub proof fn lemma_without_hints(puzzle: Puzzle)
    requires
        puzzle.wf(),
        forall|r: int| 0 <= r < puzzle.height ==> (#[trigger] puzzle.row_hints[r]).len() == 0,
        forall|c: int| 0 <= c < puzzle.width ==> (#[trigger] puzzle.column_hints[c]).len() == 0,
    ensures
        solving(puzzle) == Some(Board::all_white(puzzle.height, puzzle.width)),
        forall|i: int, j: int|
            0 <= i < puzzle.height && 0 <= j < puzzle.width ==> Board::all_white(
                puzzle.height,
                puzzle.width,
            ).cells()[i][j] == Cell::White,
{
    broadcast use group_mask_bits;

    let blank = Board::blank(puzzle.height, puzzle.width);
    let white = Board::all_white(puzzle.height, puzzle.width);
    let none = Seq::<Hint>::empty();
    lemma_blank_wf(puzzle.height, puzzle.width);
    lemma_disjoint_bits(0, low_bits(puzzle.width));
    lemma_includes_bits(low_bits(puzzle.width), 0);
    lemma_subset_reflexive(low_bits(puzzle.width));
    assert(white.wf());
    assert(white.complete());
    assert(blank.le(white)) by {
        assert forall|i: int| 0 <= i < blank.white.len() implies includes(
            #[trigger] white.white[i],
            blank.white[i],
        ) by {}
        lemma_subset_reflexive(0);
    }
    assert forall|r: int| 0 <= r < puzzle.height implies line_fillings(
        puzzle.width,
        puzzle.row_hints[r],
        0,
        0,
    ).contains(#[trigger] white.black[r]) by {
        assert(puzzle.row_hints[r] =~= none);
        lemma_no_hints(puzzle.width, 0, 0);
        assert(seq![0u64][0] == 0);
    }
    assert forall|c: int| 0 <= c < puzzle.width implies line_fillings(
        puzzle.height,
        puzzle.column_hints[c],
        0,
        0,
    ).contains(#[trigger] white.transposed().black[c]) by {
        assert(puzzle.column_hints[c] =~= none);
        lemma_no_hints(puzzle.height, 0, 0);
        assert(seq![0u64][0] == 0);
        assert forall|i: int| 0 <= i < 64 implies bit(white.transposed().black[c], i) == bit(
            0,
            i,
        ) by {
            lemma_column_mask_bits(white.black, c, puzzle.height, i);
        }
        lemma_mask_ext(white.transposed().black[c], 0);
    }
    assert(solves(puzzle, white));
    lemma_solution_settled(puzzle, white);
    assert forall|t: Board| blank.le(t) && settled(puzzle, t) implies white.le(t) by {
        assert forall|r: int| 0 <= r < white.white.len() implies includes(
            #[trigger] t.white[r],
            white.white[r],
        ) by {
            assert(crate::propagate::row_settled(puzzle, t, r));
            assert(puzzle.row_hints[r] =~= none);
            lemma_no_hints(puzzle.width, t.white[r], t.black[r]);
            let found = line_fillings(puzzle.width, none, t.white[r], t.black[r]);
            lemma_includes_bits(
                t.white[r],
                must_white(puzzle.width, none, t.white[r], t.black[r]),
            );
            assert forall|j: int| bit(low_bits(puzzle.width), j) implies bit(t.white[r], j) by {
                lemma_forced_cells(puzzle.width, none, t.white[r], t.black[r], j);
                assert forall|m: Mask| found.contains(m) implies !bit(m, j) by {
                    assert(m == 0);
                }
            }
            lemma_includes_bits(t.white[r], low_bits(puzzle.width));
        }
        assert forall|r: int| 0 <= r < white.black.len() implies includes(
            #[trigger] t.black[r],
            white.black[r],
        ) by {
            lemma_includes_bits(t.black[r], 0);
        }
    }
    lemma_propagation_some(puzzle, blank, white);
}

/// The board that propagation reaches once a refuted guess has decided a
/// cell knows more than the board before the guess.
pub proof fn lemma_forced_measure(puzzle: Puzzle, board: Board, c: Candidate, reached: Board)
    requires
        fits(puzzle, board),
        is_candidate(board, c),
        propagation(puzzle, board.with_cell(c.i as int, c.j as int, opposite(first_guess(c))))
            == Some(reached),
    ensures
        0 <= measure(puzzle, reached) < measure(puzzle, board),
{
    let forced = board.with_cell(c.i as int, c.j as int, opposite(first_guess(c)));
    lemma_with_cell(board, c.i as int, c.j as int, opposite(first_guess(c)));
    assert(is_propagation(puzzle, forced, reached));
    lemma_weight_le(board, forced);
    lemma_weight_le(forced, reached);
}

/// A board that the search ends with solves the puzzle.
pub proof fn lemma_search_sound(puzzle: Puzzle, board: Board, cells: Seq<Candidate>, k: int)
    ensures
        search(puzzle, board) matches Some(found) ==> solves(puzzle, found),
        attempts(puzzle, board, cells, k) matches Some(found) ==> solves(puzzle, found),
    decreases measure(puzzle, board), 1int, cells.len() - k,
{
    if search(puzzle, board) is Some {
        lemma_attempts_sound(puzzle, board, candidates(board), 0);
    }
    if attempts(puzzle, board, cells, k) is Some {
        lemma_attempts_sound(puzzle, board, cells, k);
    }
}

/// A board that the search ends with solves the puzzle.
proof fn lemma_attempts_sound(puzzle: Puzzle, board: Board, cells: Seq<Candidate>, k: int)
    requires
        attempts(puzzle, board, cells, k) is Some,
    ensures
        solves(puzzle, attempts(puzzle, board, cells, k)->0),
    decreases measure(puzzle, board), 0int, cells.len() - k,
{
    let c = cells[k];
    let guessed = board.with_cell(c.i as int, c.j as int, first_guess(c));
    let forced = board.with_cell(c.i as int, c.j as int, opposite(first_guess(c)));
    match propagation(puzzle, guessed) {
        Some(reached) => {
            assert(is_propagation(puzzle, guessed, reached));
            if reached.tallied(puzzle) {
                lemma_settled_tallied(puzzle, reached);
            } else {
                lemma_attempts_sound(puzzle, board, cells, k + 1);
            }
        },
        None => {
            let reached = propagation(puzzle, forced)->0;
            assert(is_propagation(puzzle, forced, reached));
            if reached.tallied(puzzle) {
                lemma_settled_tallied(puzzle, reached);
            } else {
                lemma_search_sound(puzzle, reached, cells, 0);
            }
        },
    }
}

/// A board that solving ends with solves the puzzle, and its cells are a
/// solution of the puzzle.
pub proof fn lemma_solving_sound(puzzle: Puzzle)
    ensures
        solving(puzzle) matches Some(found) ==> solves(puzzle, found) && is_solution(
            puzzle,
            found.cells(),
        ),
{
    let blank = Board::blank(puzzle.height, puzzle.width);
    match propagation(puzzle, blank) {
        Some(reached) => {
            assert(is_propagation(puzzle, blank, reached));
            if reached.tallied(puzzle) {
                lemma_settled_tallied(puzzle, reached);
            } else {
                lemma_search_sound(puzzle, reached, Seq::empty(), 0);
            }
        },
        None => {},
    }
    if solving(puzzle) is Some {
        lemma_solves_cells(puzzle, solving(puzzle)->0);
    }
}

} // verus!
