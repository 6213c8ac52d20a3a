//! What it means that a board, or a grid of cells, solves a puzzle, and how
//! a settled board is seen to do so.

use vstd::prelude::*;
use crate::common::{Board, Cell, Hint, Mask, Puzzle, grid, hint_sum, lemma_column_mask_bits};
use crate::bitop::{
    bit, count_bits, disjoint, includes, low_bits, run_mask, group_mask_bits, lemma_disjoint_bits,
    lemma_includes_bits, lemma_mask_ext,
};
use crate::filling::{
    compatible, fillings, line_fillings, line_settled, must_white, lemma_common_white_bits,
    lemma_complete_line_settled, lemma_contains_concat, lemma_filling_extends,
    lemma_filling_filter, lemma_line_fillings_inside,
};
use crate::propagate::{
    column_settled, fits, propagation, row_settled, settled, lemma_propagation_exists,
    lemma_transpose_fits,
};

verus! {

/// The board is complete, and the black cells of each row and of each column
/// are a filling of the line by its hints.
pub open spec fn solves(puzzle: Puzzle, board: Board) -> bool {
    &&& fits(puzzle, board)
    &&& board.complete()
    &&& forall|r: int|
        0 <= r < puzzle.height ==> line_fillings(puzzle.width, puzzle.row_hints[r], 0, 0).contains(
            #[trigger] board.black[r],
        )
    &&& forall|c: int|
        0 <= c < puzzle.width ==> line_fillings(
            puzzle.height,
            puzzle.column_hints[c],
            0,
            0,
        ).contains(#[trigger] board.transposed().black[c])
}

/// The mask of the black cells among the first `n` cells of a line.
pub open spec fn cells_mask(cells: Seq<Cell>, n: int) -> Mask
    decreases n,
{
    if n <= 0 {
        0
    } else if cells[n - 1] == Cell::Black {
        cells_mask(cells, n - 1) | (1u64 << ((n - 1) as u64))
    } else {
        cells_mask(cells, n - 1)
    }
}

/// Column `c` of a grid, from the top.
pub open spec fn grid_column(grid: Seq<Seq<Cell>>, c: int) -> Seq<Cell> {
    Seq::new(grid.len(), |i: int| grid[i][c])
}

/// The black cells of the line are a filling of the line by the hints.
pub open spec fn line_solved(cells: Seq<Cell>, hints: Seq<Hint>) -> bool {
    line_fillings(cells.len() as int, hints, 0, 0).contains(cells_mask(cells, cells.len() as int))
}

/// The grid has the puzzle's size, and each of its rows and columns is
/// solved by the line's hints.
pub open spec fn is_solution(puzzle: Puzzle, grid: Seq<Seq<Cell>>) -> bool {
    &&& grid.len() == puzzle.height
    &&& forall|r: int| 0 <= r < puzzle.height ==> (#[trigger] grid[r]).len() == puzzle.width
    &&& forall|r: int|
        0 <= r < puzzle.height ==> line_solved(#[trigger] grid[r], puzzle.row_hints[r])
    &&& forall|c: int|
        0 <= c < puzzle.width ==> line_solved(
            #[trigger] grid_column(grid, c),
            puzzle.column_hints[c],
        )
}

/// Disjoint masks have as many cells together as they have apart.
proof fn lemma_count_union(a: Mask, b: Mask, n: int)
    requires
        disjoint(a, b),
    ensures
        count_bits(a | b, n) == count_bits(a, n) + count_bits(b, n),
    decreases n,
{
    broadcast use group_mask_bits;

    if n > 0 {
        lemma_count_union(a, b, n - 1);
        lemma_disjoint_bits(a, b);
    }
}

/// A run of `h` cells has `h` cells.
proof fn lemma_count_run(p: int, h: int, n: int)
    requires
        0 <= p,
        0 <= h < 64,
        p + h <= 64,
        0 <= n <= 64,
    ensures
        count_bits(run_mask(p, h), n) == if n <= p {
            0
        } else if n >= p + h {
            h
        } else {
            n - p
        },
    decreases n,
{
    broadcast use group_mask_bits;

    if n > 0 {
        lemma_count_run(p, h, n - 1);
    }
}

/// A mask that includes another never falls behind it in the count.
proof fn lemma_count_gap(m: Mask, b: Mask, lo: int, hi: int)
    requires
        includes(m, b),
        0 <= lo <= hi,
    ensures
        count_bits(m, hi) - count_bits(b, hi) >= count_bits(m, lo) - count_bits(b, lo),
        count_bits(m, lo) - count_bits(b, lo) >= 0,
    decreases hi,
{
    lemma_includes_bits(m, b);
    if hi > lo {
        lemma_count_gap(m, b, lo, hi - 1);
    } else if lo > 0 {
        lemma_count_gap(m, b, 0, lo - 1);
        lemma_count_gap(m, b, lo - 1, lo - 1);
    }
}

/// A mask that includes another with as many cells is that mask.
pub proof fn lemma_same_count(m: Mask, b: Mask)
    requires
        includes(m, b),
        count_bits(m, 64) == count_bits(b, 64),
    ensures
        m == b,
{
    lemma_includes_bits(m, b);
    assert forall|i: int| 0 <= i < 64 implies bit(m, i) == bit(b, i) by {
        if bit(m, i) != bit(b, i) {
            lemma_count_gap(m, b, i, i);
            lemma_count_gap(m, b, i + 1, 64);
        }
    }
    lemma_mask_ext(m, b);
}

/// The sum of the hints is the first hint and the sum of the others.
proof fn lemma_hint_sum_front(hints: Seq<Hint>)
    requires
        hints.len() > 0,
    ensures
        hint_sum(hints) == hints[0] + hint_sum(hints.drop_first()),
    decreases hints.len(),
{
    if hints.len() == 1 {
        assert(hints.drop_last() =~= hints.drop_first());
        assert(hint_sum(hints.drop_last()) == 0);
    } else {
        lemma_hint_sum_front(hints.drop_last());
        assert(hints.drop_last().drop_first() =~= hints.drop_first().drop_last());
    }
}

/// A filling has as many cells more than `cur` as the hints still to lay
/// sum up to.
proof fn lemma_filling_count(
    width: int,
    hints: Seq<Hint>,
    k: int,
    pos: int,
    cur: Mask,
    white: Mask,
    black: Mask,
    idx: int,
)
    requires
        width < 64,
        0 <= pos <= width + 1,
        0 <= k <= hints.len(),
        includes(low_bits(pos), cur),
        0 <= idx < fillings(width, hints, k, pos, cur, white, black).len(),
    ensures
        count_bits(fillings(width, hints, k, pos, cur, white, black)[idx], 64) == count_bits(
            cur,
            64,
        ) + hint_sum(hints.subrange(k, hints.len() as int)),
    decreases hints.len() - k, width + 1 - pos,
{
    broadcast use group_mask_bits;

    let all = fillings(width, hints, k, pos, cur, white, black);
    let m = all[idx];
    let todo = hints.subrange(k, hints.len() as int);
    if k >= hints.len() {
        assert(m == cur);
    } else {
        let h = hints[k] as int;
        let run = run_mask(pos, h);
        let next = cur | run;
        let placed = fillings(width, hints, k + 1, pos + h + 1, next, white, black);
        let rest = fillings(width, hints, k, pos + 1, cur, white, black);
        assert(all == placed + rest);
        lemma_includes_bits(low_bits(pos), cur);
        if idx < placed.len() {
            assert(m == placed[idx]);
            assert forall|j: int| bit(next, j) implies bit(low_bits(pos + h + 1), j) by {}
            lemma_includes_bits(low_bits(pos + h + 1), next);
            lemma_filling_count(width, hints, k + 1, pos + h + 1, next, white, black, idx);
            assert forall|j: int| !(bit(cur, j) && bit(run, j)) by {}
            lemma_disjoint_bits(cur, run);
            lemma_count_union(cur, run, 64);
            lemma_count_run(pos, h, 64);
            lemma_hint_sum_front(todo);
            assert(todo.drop_first() =~= hints.subrange(k + 1, hints.len() as int));
        } else {
            assert(m == rest[idx - placed.len()]);
            lemma_includes_bits(low_bits(pos + 1), cur);
            lemma_filling_count(width, hints, k, pos + 1, cur, white, black, idx - placed.len());
        }
    }
}

/// Every filling of a line has as many cells as the hints sum up to.
pub proof fn lemma_line_filling_count(
    width: int,
    hints: Seq<Hint>,
    white: Mask,
    black: Mask,
    m: Mask,
)
    requires
        0 <= width < 64,
        line_fillings(width, hints, white, black).contains(m),
    ensures
        count_bits(m, 64) == hint_sum(hints),
{
    broadcast use group_mask_bits;

    let s = line_fillings(width, hints, white, black);
    let i = choose|i: int| 0 <= i < s.len() && s[i] == m;
    lemma_includes_bits(low_bits(0), 0);
    lemma_filling_count(width, hints, 0, 0, 0, white, black, i);
    assert(hints.subrange(0, hints.len() as int) =~= hints);
    lemma_count_zero(64);
}

/// The empty mask has no cell.
proof fn lemma_count_zero(n: int)
    ensures
        count_bits(0, n) == 0,
    decreases n,
{
    broadcast use group_mask_bits;

    if n > 0 {
        lemma_count_zero(n - 1);
    }
}

/// A settled line whose black cells are as many as the hints ask for is
/// decided: its black cells are its one filling, and all other cells of
/// the line are white.
pub proof fn lemma_line_decided(width: int, hints: Seq<Hint>, white: Mask, black: Mask)
    requires
        0 <= width < 64,
        line_settled(width, hints, white, black),
        count_bits(black, 64) == hint_sum(hints),
    ensures
        line_fillings(width, hints, 0, 0).contains(black),
        forall|j: int| 0 <= j < width ==> bit(black, j) || bit(white, j),
{
    broadcast use group_mask_bits;

    let s = line_fillings(width, hints, white, black);
    assert forall|m: Mask| s.contains(m) implies m == black by {
        lemma_line_filling_count(width, hints, white, black, m);
        lemma_line_fillings_inside(width, hints, white, black, m);
        lemma_same_count(m, black);
    }
    assert(s.contains(s[0]));
    lemma_filling_filter(width, hints, 0, 0, 0, white, black, black);
    lemma_includes_bits(white, must_white(width, hints, white, black));
    assert forall|j: int| 0 <= j < width implies bit(black, j) || bit(white, j) by {
        lemma_common_white_bits(s, width, j);
    }
}

/// A settled line without an undecided cell has its black cells for its one
/// filling.
pub proof fn lemma_line_complete(width: int, hints: Seq<Hint>, white: Mask, black: Mask)
    requires
        0 <= width < 64,
        line_settled(width, hints, white, black),
        forall|j: int| 0 <= j < width ==> bit(black, j) || bit(white, j),
        includes(low_bits(width), black),
    ensures
        line_fillings(width, hints, 0, 0).contains(black),
{
    broadcast use group_mask_bits;

    let s = line_fillings(width, hints, white, black);
    let m = s[0];
    assert(s.contains(m));
    lemma_line_fillings_inside(width, hints, white, black, m);
    lemma_includes_bits(low_bits(width), m);
    lemma_includes_bits(low_bits(width), black);
    lemma_includes_bits(m, black);
    lemma_disjoint_bits(m, white);
    assert forall|j: int| 0 <= j < 64 implies bit(m, j) == bit(black, j) by {}
    lemma_mask_ext(m, black);
    lemma_filling_filter(width, hints, 0, 0, 0, white, black, black);
}

/// A settled board whose rows have as many black cells as their hints ask
/// for solves the puzzle.
pub proof fn lemma_settled_tallied(puzzle: Puzzle, board: Board)
    requires
        settled(puzzle, board),
        board.tallied(puzzle),
    ensures
        solves(puzzle, board),
{
    broadcast use group_mask_bits;

    let t = board.transposed();
    assert forall|r: int| 0 <= r < puzzle.height implies line_fillings(
        puzzle.width,
        puzzle.row_hints[r],
        0,
        0,
    ).contains(#[trigger] board.black[r]) && forall|j: int|
        0 <= j < puzzle.width ==> bit(board.black[r], j) || bit(board.white[r], j) by {
        assert(row_settled(puzzle, board, r));
        assert(hint_sum(puzzle.row_hints[r]) == count_bits(board.black[r], 64));
        lemma_line_decided(puzzle.width, puzzle.row_hints[r], board.white[r], board.black[r]);
    }
    assert forall|i: int, j: int| board.has_cell(i, j) implies !#[trigger] board.is_empty(i, j) by {
        assert(line_fillings(puzzle.width, puzzle.row_hints[i], 0, 0).contains(board.black[i]));
    }
    lemma_transpose_fits(puzzle, board);
    assert forall|c: int| 0 <= c < puzzle.width implies line_fillings(
        puzzle.height,
        puzzle.column_hints[c],
        0,
        0,
    ).contains(#[trigger] t.black[c]) by {
        assert(column_settled(puzzle, board, c));
        assert forall|i: int| 0 <= i < puzzle.height implies bit(t.black[c], i) || bit(
            t.white[c],
            i,
        ) by {
            lemma_column_mask_bits(board.black, c, board.height, i);
            lemma_column_mask_bits(board.white, c, board.height, i);
            assert(!board.is_empty(i, c));
        }
        assert(includes(low_bits(t.width), t.black[c]));
        lemma_line_complete(puzzle.height, puzzle.column_hints[c], t.white[c], t.black[c]);
    }
}

/// The cells of a board that solves the puzzle are a solution of the puzzle.
pub proof fn lemma_solves_cells(puzzle: Puzzle, board: Board)
    requires
        solves(puzzle, board),
    ensures
        is_solution(puzzle, board.cells()),
{
    broadcast use group_mask_bits;

    let grid = board.cells();
    let t = board.transposed();
    assert forall|r: int| 0 <= r < puzzle.height implies line_solved(
        #[trigger] grid[r],
        puzzle.row_hints[r],
    ) by {
        assert(disjoint(board.black[r], board.white[r]));
        lemma_disjoint_bits(board.black[r], board.white[r]);
        lemma_includes_bits(low_bits(board.width), board.black[r]);
        assert forall|j: int| 0 <= j < 64 implies bit(cells_mask(grid[r], puzzle.width), j) == bit(
            board.black[r],
            j,
        ) by {
            lemma_cells_mask_bits(grid[r], puzzle.width, j);
            if j < puzzle.width {
                assert(!board.is_empty(r, j));
            }
        }
        lemma_mask_ext(cells_mask(grid[r], puzzle.width), board.black[r]);
    }
    assert forall|c: int| 0 <= c < puzzle.width implies line_solved(
        #[trigger] grid_column(grid, c),
        puzzle.column_hints[c],
    ) by {
        let column = grid_column(grid, c);
        assert forall|i: int| 0 <= i < 64 implies bit(cells_mask(column, puzzle.height), i) == bit(
            t.black[c],
            i,
        ) by {
            lemma_cells_mask_bits(column, puzzle.height, i);
            lemma_column_mask_bits(board.black, c, board.height, i);
            if i < puzzle.height {
                assert(disjoint(board.black[i], board.white[i]));
                lemma_disjoint_bits(board.black[i], board.white[i]);
                assert(!board.is_empty(i, c));
            }
        }
        lemma_mask_ext(cells_mask(column, puzzle.height), t.black[c]);
    }
}

/// Bit `j` of the mask of a line says whether cell `j` is black.
pub proof fn lemma_cells_mask_bits(cells: Seq<Cell>, n: int, j: int)
    requires
        0 <= n <= 64,
    ensures
        bit(cells_mask(cells, n), j) == (0 <= j < n && cells[j] == Cell::Black),
    decreases n,
{
    broadcast use group_mask_bits;

    if n > 0 {
        lemma_cells_mask_bits(cells, n - 1, j);
    }
}

/// The lengths of the runs of black cells in `cells[from..]`, in order,
/// where `run` black cells stand right before `from`.
pub open spec fn runs(cells: Seq<Cell>, from: int, run: int) -> Seq<int>
    decreases cells.len() - from,
{
    if from < 0 || from >= cells.len() {
        if run > 0 {
            seq![run]
        } else {
            Seq::empty()
        }
    } else if cells[from] == Cell::Black {
        runs(cells, from + 1, run + 1)
    } else if run > 0 {
        seq![run] + runs(cells, from + 1, 0)
    } else {
        runs(cells, from + 1, 0)
    }
}

/// The lengths of the runs of black cells of a line, in order.
pub open spec fn run_lengths(cells: Seq<Cell>) -> Seq<int> {
    runs(cells, 0, 0)
}

/// The hints `hints[k..]` as numbers.
pub open spec fn lengths(hints: Seq<Hint>, k: int) -> Seq<int> {
    Seq::new((hints.len() - k) as nat, |i: int| hints[k + i] as int)
}

/// No hint is zero.
pub open spec fn positive(hints: Seq<Hint>) -> bool {
    forall|i: int| 0 <= i < hints.len() ==> hints[i] > 0
}

/// The cells of the line are the cells of the mask.
pub open spec fn cells_of(cells: Seq<Cell>, m: Mask) -> bool {
    forall|j: int| 0 <= j < cells.len() ==> (cells[j] == Cell::Black) == bit(m, j)
}

/// Where only white cells follow, no run follows.
proof fn lemma_runs_white(cells: Seq<Cell>, from: int)
    requires
        0 <= from,
        forall|j: int| from <= j < cells.len() ==> cells[j] != Cell::Black,
    ensures
        runs(cells, from, 0) == Seq::<int>::empty(),
    decreases cells.len() - from,
{
    if from < cells.len() {
        lemma_runs_white(cells, from + 1);
    }
}

/// Over `n` black cells the run grows by `n`.
proof fn lemma_runs_black(cells: Seq<Cell>, from: int, run: int, n: int)
    requires
        0 <= from,
        0 <= n,
        from + n <= cells.len(),
        forall|j: int| from <= j < from + n ==> cells[j] == Cell::Black,
    ensures
        runs(cells, from, run) == runs(cells, from + n, run + n),
    decreases n,
{
    if n > 0 {
        lemma_runs_black(cells, from + 1, run + 1, n - 1);
    }
}

/// The runs of a filling are the runs that were laid.
proof fn lemma_filling_runs(
    width: int,
    hints: Seq<Hint>,
    k: int,
    pos: int,
    cur: Mask,
    white: Mask,
    black: Mask,
    idx: int,
    cells: Seq<Cell>,
)
    requires
        0 <= width < 64,
        0 <= pos <= width + 1,
        0 <= k <= hints.len(),
        positive(hints),
        includes(low_bits(pos), cur),
        includes(low_bits(width), cur),
        pos > 0 ==> !bit(cur, pos - 1),
        0 <= idx < fillings(width, hints, k, pos, cur, white, black).len(),
        cells.len() == width,
        cells_of(cells, fillings(width, hints, k, pos, cur, white, black)[idx]),
    ensures
        runs(cells, pos, 0) == lengths(hints, k),
    decreases hints.len() - k, width + 1 - pos,
{
    broadcast use group_mask_bits;

    let all = fillings(width, hints, k, pos, cur, white, black);
    let m = all[idx];
    lemma_includes_bits(low_bits(pos), cur);
    lemma_includes_bits(low_bits(width), cur);
    if k >= hints.len() {
        assert(m == cur);
        lemma_runs_white(cells, pos);
        assert(lengths(hints, k) =~= Seq::<int>::empty());
    } else {
        let h = hints[k] as int;
        let next = cur | run_mask(pos, h);
        let placed = fillings(width, hints, k + 1, pos + h + 1, next, white, black);
        let rest = fillings(width, hints, k, pos + 1, cur, white, black);
        assert(all == placed + rest);
        if idx < placed.len() {
            assert(m == placed[idx]);
            assert forall|j: int| bit(next, j) implies bit(low_bits(pos + h + 1), j) && bit(
                low_bits(width),
                j,
            ) by {}
            lemma_includes_bits(low_bits(pos + h + 1), next);
            lemma_includes_bits(low_bits(width), next);
            lemma_filling_extends(width, hints, k + 1, pos + h + 1, next, white, black, idx);
            assert forall|j: int| 0 <= j < pos + h + 1 implies bit(m, j) == bit(next, j) by {
                assert(bit(m & low_bits(pos + h + 1), j) == bit(next, j));
            }
            lemma_filling_runs(width, hints, k + 1, pos + h + 1, next, white, black, idx, cells);
            assert forall|j: int| pos <= j < pos + h implies cells[j] == Cell::Black by {
                assert(bit(m, j));
            }
            lemma_runs_black(cells, pos, 0, h);
            assert(hints[k] > 0);
            assert(lengths(hints, k) =~= seq![h] + lengths(hints, k + 1));
            if pos + h < width {
                assert(!bit(m, pos + h));
                assert(cells[pos + h] != Cell::Black);
            } else {
                assert(runs(cells, pos + h + 1, 0) =~= Seq::<int>::empty());
            }
        } else {
            assert(m == rest[idx - placed.len()]);
            lemma_includes_bits(low_bits(pos + 1), cur);
            lemma_filling_extends(width, hints, k, pos + 1, cur, white, black, idx - placed.len());
            assert(bit(m & low_bits(pos + 1), pos) == bit(cur, pos));
            lemma_filling_runs(
                width,
                hints,
                k,
                pos + 1,
                cur,
                white,
                black,
                idx - placed.len(),
                cells,
            );
            if pos < width {
                assert(!bit(m, pos));
            }
        }
    }
}

/// In a line that is solved by hints of which none is zero, the runs of
/// black cells have the lengths that the hints give, in their order.
pub proof fn lemma_solved_line_runs(cells: Seq<Cell>, hints: Seq<Hint>)
    requires
        cells.len() < 64,
        positive(hints),
        line_solved(cells, hints),
    ensures
        run_lengths(cells) == lengths(hints, 0),
{
    broadcast use group_mask_bits;

    let width = cells.len() as int;
    let m = cells_mask(cells, width);
    let s = line_fillings(width, hints, 0, 0);
    let idx = choose|i: int| 0 <= i < s.len() && s[i] == m;
    lemma_includes_bits(low_bits(0), 0);
    lemma_includes_bits(low_bits(width), 0);
    assert forall|j: int| 0 <= j < cells.len() implies (cells[j] == Cell::Black) == bit(m, j) by {
        lemma_cells_mask_bits(cells, width, j);
    }
    lemma_filling_runs(width, hints, 0, 0, 0, 0, 0, idx, cells);
}

/// How many black cells stand in a row from `from` on.
pub open spec fn black_run(cells: Seq<Cell>, from: int) -> int
    decreases cells.len() - from,
{
    if 0 <= from < cells.len() && cells[from] == Cell::Black {
        1 + black_run(cells, from + 1)
    } else {
        0
    }
}

/// The cells of a black run are black, and the cell behind it is not.
proof fn lemma_black_run(cells: Seq<Cell>, from: int)
    requires
        0 <= from,
    ensures
        0 <= black_run(cells, from),
        from < cells.len() ==> from + black_run(cells, from) <= cells.len(),
        forall|j: int| from <= j < from + black_run(cells, from) ==> cells[j] == Cell::Black,
        from + black_run(cells, from) < cells.len() ==> cells[from + black_run(cells, from)]
            != Cell::Black,
    decreases cells.len() - from,
{
    if from < cells.len() && cells[from] == Cell::Black {
        lemma_black_run(cells, from + 1);
    }
}

/// No run is longer than the cells that are left and the run that is open.
proof fn lemma_runs_fit(cells: Seq<Cell>, from: int, run: int, idx: int)
    requires
        0 <= from,
        0 <= run,
        0 <= idx < runs(cells, from, run).len(),
    ensures
        runs(cells, from, run)[idx] <= run + if from < cells.len() {
            cells.len() - from
        } else {
            0
        },
    decreases cells.len() - from,
{
    if from < cells.len() {
        if cells[from] == Cell::Black {
            lemma_runs_fit(cells, from + 1, run + 1, idx);
        } else if run > 0 {
            if idx > 0 {
                lemma_runs_fit(cells, from + 1, 0, idx - 1);
            }
        } else {
            lemma_runs_fit(cells, from + 1, 0, idx);
        }
    }
}

/// Every run has a cell.
proof fn lemma_runs_positive(cells: Seq<Cell>, from: int, run: int, idx: int)
    requires
        0 <= from,
        0 <= run,
        0 <= idx < runs(cells, from, run).len(),
    ensures
        runs(cells, from, run)[idx] > 0,
    decreases cells.len() - from,
{
    if from < cells.len() {
        if cells[from] == Cell::Black {
            lemma_runs_positive(cells, from + 1, run + 1, idx);
        } else if run > 0 {
            if idx > 0 {
                lemma_runs_positive(cells, from + 1, 0, idx - 1);
            }
        } else {
            lemma_runs_positive(cells, from + 1, 0, idx);
        }
    }
}

/// Where no run follows, only white cells follow.
proof fn lemma_no_runs(cells: Seq<Cell>, from: int, run: int)
    requires
        0 <= from,
        0 <= run,
        runs(cells, from, run).len() == 0,
    ensures
        run == 0,
        forall|j: int| from <= j < cells.len() ==> cells[j] != Cell::Black,
    decreases cells.len() - from,
{
    if from < cells.len() {
        if cells[from] == Cell::Black {
            lemma_no_runs(cells, from + 1, run + 1);
        } else if run > 0 {
        } else {
            lemma_no_runs(cells, from + 1, 0);
        }
    }
}

/// A line whose runs from `pos` on are the hints still to lay is one of the
/// fillings that extend what stands before `pos`.
proof fn lemma_runs_filling(
    width: int,
    hints: Seq<Hint>,
    k: int,
    pos: int,
    cur: Mask,
    cells: Seq<Cell>,
    m: Mask,
)
    requires
        0 <= width < 64,
        0 <= pos <= width + 1,
        0 <= k <= hints.len(),
        cells.len() == width,
        cells_of(cells, m),
        includes(low_bits(width), m),
        m & low_bits(pos) == cur,
        runs(cells, pos, 0) == lengths(hints, k),
    ensures
        fillings(width, hints, k, pos, cur, 0, 0).contains(m),
    decreases hints.len() - k, width + 1 - pos,
{
    broadcast use group_mask_bits;

    let all = fillings(width, hints, k, pos, cur, 0, 0);
    lemma_includes_bits(low_bits(width), m);
    lemma_disjoint_bits(cur, 0);
    lemma_includes_bits(cur, 0);
    if k >= hints.len() {
        lemma_no_runs(cells, pos, 0);
        assert forall|j: int| 0 <= j < 64 implies bit(m, j) == bit(cur, j) by {
            assert(bit(m & low_bits(pos), j) == bit(cur, j));
        }
        lemma_mask_ext(m, cur);
        assert(all =~= seq![cur]);
        assert(all[0] == m);
    } else {
        let h = hints[k] as int;
        assert(lengths(hints, k)[0] == h);
        lemma_runs_fit(cells, pos, 0, 0);
        lemma_runs_positive(cells, pos, 0, 0);
        assert(pos + h <= width);
        let next = cur | run_mask(pos, h);
        let placed = fillings(width, hints, k + 1, pos + h + 1, next, 0, 0);
        let rest = fillings(width, hints, k, pos + 1, cur, 0, 0);
        assert(all == placed + rest);
        if pos < width && cells[pos] != Cell::Black {
            assert forall|j: int| 0 <= j < 64 implies bit(m & low_bits(pos + 1), j) == bit(
                cur,
                j,
            ) by {
                assert(bit(m & low_bits(pos), j) == bit(cur, j));
            }
            lemma_mask_ext(m & low_bits(pos + 1), cur);
            lemma_runs_filling(width, hints, k, pos + 1, cur, cells, m);
            lemma_contains_concat(placed, rest, m);
        } else {
            let b = black_run(cells, pos);
            lemma_black_run(cells, pos);
            if pos < width {
                lemma_runs_black(cells, pos, 0, b);
                if pos + b >= width {
                    assert(runs(cells, pos + b + 1, 0) =~= Seq::<int>::empty());
                }
                assert(b > 0);
                assert(runs(cells, pos, 0) =~= seq![b] + runs(cells, pos + b + 1, 0));
            } else {
                assert(runs(cells, pos, 0) =~= Seq::<int>::empty());
            }
            assert(b == h);
            assert(runs(cells, pos + h + 1, 0) =~= lengths(hints, k + 1)) by {
                assert(lengths(hints, k) =~= seq![h] + lengths(hints, k + 1));
                assert((seq![b] + runs(cells, pos + b + 1, 0)).drop_first() =~= runs(
                    cells,
                    pos + b + 1,
                    0,
                ));
                assert((seq![h] + lengths(hints, k + 1)).drop_first() =~= lengths(hints, k + 1));
            }
            assert forall|j: int| 0 <= j < 64 implies bit(m & low_bits(pos + h + 1), j) == bit(
                next,
                j,
            ) by {
                assert(bit(m & low_bits(pos), j) == bit(cur, j));
            }
            lemma_mask_ext(m & low_bits(pos + h + 1), next);
            lemma_runs_filling(width, hints, k + 1, pos + h + 1, next, cells, m);
            lemma_contains_concat(placed, rest, m);
        }
    }
}

/// A line is solved by hints of which none is zero exactly if its runs of
/// black cells have the lengths that the hints give, in their order.
pub proof fn lemma_line_solved_by_runs(cells: Seq<Cell>, hints: Seq<Hint>)
    requires
        cells.len() < 64,
        positive(hints),
    ensures
        line_solved(cells, hints) <==> run_lengths(cells) == lengths(hints, 0),
{
    broadcast use group_mask_bits;

    let width = cells.len() as int;
    let m = cells_mask(cells, width);
    if line_solved(cells, hints) {
        lemma_solved_line_runs(cells, hints);
    }
    if run_lengths(cells) == lengths(hints, 0) {
        assert forall|j: int| 0 <= j < 64 implies (bit(m, j) ==> bit(low_bits(width), j)) && (0
            <= j < cells.len() ==> (cells[j] == Cell::Black) == bit(m, j)) && bit(
            m & low_bits(0),
            j,
        ) == bit(0, j) by {
            lemma_cells_mask_bits(cells, width, j);
        }
        lemma_includes_bits(low_bits(width), m);
        lemma_mask_ext(m & low_bits(0), 0);
        lemma_runs_filling(width, hints, 0, 0, 0, cells, m);
    }
}

/// No hint of the puzzle is zero.
pub open spec fn hints_positive(puzzle: Puzzle) -> bool {
    &&& forall|r: int| 0 <= r < puzzle.height ==> positive(#[trigger] puzzle.row_hints[r])
    &&& forall|c: int| 0 <= c < puzzle.width ==> positive(#[trigger] puzzle.column_hints[c])
}

/// The grid has the puzzle's size, and in each of its rows and columns the
/// runs of black cells have the lengths that the line's hints give, in
/// their order.
pub open spec fn runs_match(puzzle: Puzzle, grid: Seq<Seq<Cell>>) -> bool {
    &&& grid.len() == puzzle.height
    &&& forall|r: int| 0 <= r < puzzle.height ==> (#[trigger] grid[r]).len() == puzzle.width
    &&& forall|r: int|
        0 <= r < puzzle.height ==> run_lengths(#[trigger] grid[r]) == lengths(
            puzzle.row_hints[r],
            0,
        )
    &&& forall|c: int|
        0 <= c < puzzle.width ==> run_lengths(#[trigger] grid_column(grid, c)) == lengths(
            puzzle.column_hints[c],
            0,
        )
}

/// For a puzzle without zero hints, the solutions are the grids whose runs
/// of black cells match the hints.
pub proof fn lemma_solution_by_runs(puzzle: Puzzle, grid: Seq<Seq<Cell>>)
    requires
        puzzle.wf(),
        hints_positive(puzzle),
    ensures
        is_solution(puzzle, grid) <==> runs_match(puzzle, grid),
{
    if grid.len() == puzzle.height && forall|r: int|
        0 <= r < puzzle.height ==> (#[trigger] grid[r]).len() == puzzle.width {
        assert forall|r: int| 0 <= r < puzzle.height implies (line_solved(
            #[trigger] grid[r],
            puzzle.row_hints[r],
        ) <==> run_lengths(grid[r]) == lengths(puzzle.row_hints[r], 0)) by {
            assert(positive(puzzle.row_hints[r]));
            lemma_line_solved_by_runs(grid[r], puzzle.row_hints[r]);
        }
        assert forall|c: int| 0 <= c < puzzle.width implies (line_solved(
            #[trigger] grid_column(grid, c),
            puzzle.column_hints[c],
        ) <==> run_lengths(grid_column(grid, c)) == lengths(puzzle.column_hints[c], 0)) by {
            assert(positive(puzzle.column_hints[c]));
            lemma_line_solved_by_runs(grid_column(grid, c), puzzle.column_hints[c]);
        }
    }
}

/// A board that solves the puzzle is settled, and its rows have as many
/// black cells as their hints ask for. So propagation from a board that
/// knows no more than a solving board does not fail and stays below it.
pub proof fn lemma_solution_settled(puzzle: Puzzle, board: Board)
    requires
        solves(puzzle, board),
    ensures
        settled(puzzle, board),
        board.tallied(puzzle),
{
    broadcast use group_mask_bits;

    let t = board.transposed();
    lemma_transpose_fits(puzzle, board);
    assert forall|r: int| 0 <= r < puzzle.height implies row_settled(puzzle, board, r) by {
        assert(line_fillings(puzzle.width, puzzle.row_hints[r], 0, 0).contains(board.black[r]));
        assert(disjoint(board.black[r], board.white[r]));
        assert forall|j: int| 0 <= j < puzzle.width implies bit(board.black[r], j) || bit(
            board.white[r],
            j,
        ) by {
            assert(!board.is_empty(r, j));
        }
        lemma_complete_line_settled(
            puzzle.width,
            puzzle.row_hints[r],
            board.white[r],
            board.black[r],
        );
    }
    assert forall|c: int| 0 <= c < puzzle.width implies column_settled(puzzle, board, c) by {
        assert(line_fillings(puzzle.height, puzzle.column_hints[c], 0, 0).contains(t.black[c]));
        assert(disjoint(t.black[c], t.white[c]));
        assert forall|i: int| 0 <= i < puzzle.height implies bit(t.black[c], i) || bit(
            t.white[c],
            i,
        ) by {
            lemma_column_mask_bits(board.black, c, board.height, i);
            lemma_column_mask_bits(board.white, c, board.height, i);
            assert(!board.is_empty(i, c));
        }
        lemma_complete_line_settled(
            puzzle.height,
            puzzle.column_hints[c],
            t.white[c],
            t.black[c],
        );
    }
    assert forall|r: int|
        0 <= r < board.black.len() && r < puzzle.row_hints.len() implies hint_sum(
        #[trigger] puzzle.row_hints[r],
    ) == count_bits(board.black[r], 64) by {
        assert(line_fillings(puzzle.width, puzzle.row_hints[r], 0, 0).contains(board.black[r]));
        lemma_line_filling_count(puzzle.width, puzzle.row_hints[r], 0, 0, board.black[r]);
    }
}

/// The line of `width` cells whose black cells are the cells of the mask.
pub open spec fn mask_cells(m: Mask, width: int) -> Seq<Cell> {
    Seq::new(
        width as nat,
        |j: int|
            if bit(m, j) {
                Cell::Black
            } else {
                Cell::White
            },
    )
}

/// Under hints of which none is zero, the fillings of a line are the masks
/// inside the line whose runs of black cells have the lengths that the
/// hints give, in their order, and that leave the cells known white clear
/// and cover the cells known black.
pub proof fn lemma_filling_by_runs(
    width: int,
    hints: Seq<Hint>,
    white: Mask,
    black: Mask,
    m: Mask,
)
    requires
        0 <= width < 64,
        positive(hints),
    ensures
        line_fillings(width, hints, white, black).contains(m) <==> {
            &&& includes(low_bits(width), m)
            &&& run_lengths(mask_cells(m, width)) == lengths(hints, 0)
            &&& compatible(m, white, black)
        },
{
    broadcast use group_mask_bits;

    let cells = mask_cells(m, width);
    lemma_filling_filter(width, hints, 0, 0, 0, white, black, m);
    lemma_line_solved_by_runs(cells, hints);
    if line_fillings(width, hints, 0, 0).contains(m) {
        lemma_line_fillings_inside(width, hints, 0, 0, m);
    }
    if includes(low_bits(width), m) {
        lemma_includes_bits(low_bits(width), m);
        assert forall|j: int| 0 <= j < 64 implies bit(cells_mask(cells, width), j) == bit(
            m,
            j,
        ) by {
            lemma_cells_mask_bits(cells, width, j);
            if bit(m, j) {
                assert(bit(low_bits(width), j));
            }
        }
        lemma_mask_ext(cells_mask(cells, width), m);
    }
}

/// Propagation decides no cell against a solution: from a board that knows
/// no more than a solving board it does not fail, and what it reaches
/// knows no more than that board either.
pub proof fn lemma_propagation_below_solution(puzzle: Puzzle, board: Board, solution: Board)
    requires
        solves(puzzle, solution),
        board.le(solution),
    ensures
        propagation(puzzle, board) matches Some(reached) && reached.le(solution),
{
    lemma_solution_settled(puzzle, solution);
    lemma_propagation_exists(puzzle, board, solution);
}

} // verus!
