//! The line solver, which finds what all fillings of one line have in common,
//! and the propagation of its findings over the rows and columns of a board.

use vstd::prelude::*;
use std::collections::VecDeque;
use crate::common::{Board, Hint, Input, Mask, Puzzle, State};
use crate::bitop::{
    all, bit, disjoint, distinct, includes, low_bits, minus, run_mask, subset_bit, without,
    group_mask_bits, lemma_disjoint_bits, lemma_includes_bits,
};
use crate::filling::{
    and_all, fillings, line_fillings, must_black, must_white, or_all, lemma_and_all_concat,
    lemma_common_black_bits, lemma_filling_extends, lemma_line_fillings_inside, lemma_no_filling,
    lemma_or_all_bits, lemma_or_all_concat,
};
use crate::propagate::{
    column_fillings, column_news, column_settled, column_step, fits, is_propagation, propagation,
    row_fillings, row_news, row_settled, row_step, settled, weight, lemma_column_step,
    lemma_column_step_below, lemma_le_reflexive, lemma_le_transitive, lemma_propagation_some,
    lemma_row_news, lemma_row_step, lemma_row_step_below, lemma_row_step_columns,
    lemma_transpose_fits, lemma_weight_le,
};

verus! {

/// The test by which the search leaves a branch: the run of `h` cells at `i`
/// laid over `cur` keeps clear of `white`, covers what is black before the
/// run's end, and has no black cell right behind it.
spec fn admits(cur: Mask, i: int, h: int, white: Mask, black: Mask) -> bool {
    let next = cur | run_mask(i, h);
    &&& disjoint(next, white)
    &&& includes(next, black & low_bits(h + i))
    &&& !bit(black, i + h)
}

/// A branch that the test leaves holds no filling.
proof fn lemma_pruned(
    width: int,
    hints: Seq<Hint>,
    k: int,
    pos: int,
    i: int,
    cur: Mask,
    white: Mask,
    black: Mask,
)
    requires
        width < 64,
        0 <= k < hints.len(),
        0 <= pos <= i,
        i + hints[k] <= width,
        includes(low_bits(pos), cur),
        !admits(cur, i, hints[k] as int, white, black),
    ensures
        fillings(
            width,
            hints,
            k + 1,
            i + hints[k] + 1,
            cur | run_mask(i, hints[k] as int),
            white,
            black,
        ).len() == 0,
{
    broadcast use group_mask_bits;

    let h = hints[k] as int;
    let next = cur | run_mask(i, h);
    let placed = fillings(width, hints, k + 1, i + h + 1, next, white, black);
    if placed.len() > 0 {
        let m = placed[0];
        lemma_includes_bits(low_bits(pos), cur);
        assert forall|j: int| bit(next, j) implies bit(low_bits(i + h + 1), j) && bit(
            low_bits(width),
            j,
        ) by {}
        lemma_includes_bits(low_bits(i + h + 1), next);
        lemma_includes_bits(low_bits(width), next);
        lemma_filling_extends(width, hints, k + 1, i + h + 1, next, white, black, 0);
        lemma_includes_bits(m, black);
        lemma_disjoint_bits(m, white);
        assert forall|j: int| 0 <= j < i + h + 1 implies bit(m, j) == bit(next, j) by {
            assert(bit(m & low_bits(i + h + 1), j) == bit(next, j));
        }
        assert forall|j: int| !(bit(next, j) && bit(white, j)) by {}
        lemma_disjoint_bits(next, white);
        assert forall|j: int| bit(black & low_bits(h + i), j) implies bit(next, j) by {}
        lemma_includes_bits(next, black & low_bits(h + i));
        assert(!bit(next, i + h));
        assert(!bit(black, i + h));
    }
}

/// Where the search stands before it tries the start `i`: laying the run at
/// `i` or later gives the fillings of `i`, which split into those with the
/// run at `i` and those with the run further on.
proof fn lemma_fillings_step(
    width: int,
    hints: Seq<Hint>,
    k: int,
    i: int,
    cur: Mask,
    white: Mask,
    black: Mask,
)
    requires
        0 <= k < hints.len(),
        0 <= i,
        i + hints[k] <= width,
    ensures
        fillings(width, hints, k, i, cur, white, black) == fillings(
            width,
            hints,
            k + 1,
            i + hints[k] + 1,
            cur | run_mask(i, hints[k] as int),
            white,
            black,
        ) + fillings(width, hints, k, i + 1, cur, white, black),
{
}

/// Folds the fillings that extend `cur` by the runs `hints[k..]` from `pos`
/// on into the two accumulators.
fn search_line_impl(
    width: usize,
    cur: Mask,
    pos: usize,
    hints: &[Hint],
    k: usize,
    must_white: Mask,
    must_black: Mask,
    and: &mut Mask,
    or: &mut Mask,
)
    requires
        width < 64,
        pos <= width + 1,
        k <= hints.len(),
        includes(low_bits(pos as int), cur),
        disjoint(cur, must_white),
    ensures
        *final(and) == and_all(
            fillings(width as int, hints@, k as int, pos as int, cur, must_white, must_black),
            *old(and),
        ),
        *final(or) == or_all(
            fillings(width as int, hints@, k as int, pos as int, cur, must_white, must_black),
            *old(or),
        ),
    decreases hints.len() - k,
{
    if k >= hints.len() {
        let ghost found = fillings(
            width as int,
            hints@,
            k as int,
            pos as int,
            cur,
            must_white,
            must_black,
        );
        if subset_bit(cur, must_black) {
            proof {
                assert(found =~= seq![cur]);
                assert(found.drop_last() =~= Seq::<Mask>::empty());
                assert(and_all(found.drop_last(), *and) == *and);
                assert(or_all(found.drop_last(), *or) == *or);
            }
            *and &= cur;
            *or |= cur;
        } else {
            assert(found.len() == 0);
        }
        return ;
    }
    let hint: Hint = hints[k];
    if hint > width {
        return ;
    }
    let mask: Mask = all(hint);
    let ghost total = fillings(
        width as int,
        hints@,
        k as int,
        pos as int,
        cur,
        must_white,
        must_black,
    );
    let mut i: usize = pos;
    while i + hint <= width
        invariant
            width < 64,
            hint <= width,
            k < hints.len(),
            hint == hints[k as int],
            mask == low_bits(hint as int),
            pos <= i <= width + 1,
            includes(low_bits(pos as int), cur),
            and_all(
                fillings(width as int, hints@, k as int, i as int, cur, must_white, must_black),
                *and,
            ) == and_all(total, *old(and)),
            or_all(
                fillings(width as int, hints@, k as int, i as int, cur, must_white, must_black),
                *or,
            ) == or_all(total, *old(or)),
        decreases width + 1 - i,
    {
        let next: Mask = cur | mask << i;
        let ghost placed = fillings(
            width as int,
            hints@,
            k as int + 1,
            i as int + hint as int + 1,
            next,
            must_white,
            must_black,
        );
        let ghost rest = fillings(
            width as int,
            hints@,
            k as int,
            i as int + 1,
            cur,
            must_white,
            must_black,
        );
        proof {
            lemma_fillings_step(
                width as int,
                hints@,
                k as int,
                i as int,
                cur,
                must_white,
                must_black,
            );
            lemma_and_all_concat(placed, rest, *and);
            lemma_or_all_concat(placed, rest, *or);
        }
        if distinct(next, must_white) && subset_bit(next, must_black & all(hint + i))
            && !crate::bitop::set(must_black, i + hint) {
            proof {
                lemma_next_bounded(cur, pos as int, i as int, hint as int);
            }
            search_line_impl(
                width,
                next,
                i + hint + 1,
                hints,
                k + 1,
                must_white,
                must_black,
                and,
                or,
            );
        } else {
            proof {
                lemma_pruned(
                    width as int,
                    hints@,
                    k as int,
                    pos as int,
                    i as int,
                    cur,
                    must_white,
                    must_black,
                );
            }
        }
        i += 1;
    }
}

/// A run laid at `i` over cells that end before `pos <= i` ends before
/// `i + h + 1`.
proof fn lemma_next_bounded(cur: Mask, pos: int, i: int, h: int)
    requires
        0 <= pos <= i,
        0 <= h,
        i + h < 64,
        includes(low_bits(pos), cur),
    ensures
        includes(low_bits(i + h + 1), cur | run_mask(i, h)),
{
    broadcast use group_mask_bits;

    lemma_includes_bits(low_bits(pos), cur);
    assert forall|j: int| bit(cur | run_mask(i, h), j) implies bit(low_bits(i + h + 1), j) by {}
    lemma_includes_bits(low_bits(i + h + 1), cur | run_mask(i, h));
}

/// Appends to `result` the fillings that extend `cur` by the runs `hints[k..]`
/// from `pos` on.
fn search_line_sub_dfs(
    width: usize,
    cur: Mask,
    pos: usize,
    hints: &[Hint],
    k: usize,
    white: Mask,
    black: Mask,
    result: &mut Vec<Mask>,
)
    requires
        width < 64,
        pos <= width + 1,
        k <= hints.len(),
        includes(low_bits(pos as int), cur),
        disjoint(cur, white),
    ensures
        final(result)@ == old(result)@ + fillings(
            width as int,
            hints@,
            k as int,
            pos as int,
            cur,
            white,
            black,
        ),
    decreases hints.len() - k,
{
    if k >= hints.len() {
        if subset_bit(cur, black) {
            result.push(cur);
        }
        return ;
    }
    let hint: Hint = hints[k];
    if hint > width {
        return ;
    }
    let mask: Mask = all(hint);
    let ghost total = fillings(width as int, hints@, k as int, pos as int, cur, white, black);
    let mut i: usize = pos;
    while i + hint <= width
        invariant
            width < 64,
            hint <= width,
            k < hints.len(),
            hint == hints[k as int],
            mask == low_bits(hint as int),
            pos <= i <= width + 1,
            includes(low_bits(pos as int), cur),
            result@ + fillings(width as int, hints@, k as int, i as int, cur, white, black)
                == old(result)@ + total,
        decreases width + 1 - i,
    {
        let next: Mask = cur | mask << i;
        let cur_head: Mask = all(hint + i);
        let ghost before = result@;
        let ghost placed = fillings(
            width as int,
            hints@,
            k as int + 1,
            i as int + hint as int + 1,
            next,
            white,
            black,
        );
        let ghost rest = fillings(width as int, hints@, k as int, i as int + 1, cur, white, black);
        proof {
            lemma_fillings_step(width as int, hints@, k as int, i as int, cur, white, black);
            assert(white & next == next & white) by (bit_vector);
        }
        if distinct(white, next) && !crate::bitop::set(black, i + hint) && subset_bit(
            next,
            black & cur_head,
        ) {
            proof {
                lemma_next_bounded(cur, pos as int, i as int, hint as int);
            }
            search_line_sub_dfs(width, next, i + hint + 1, hints, k + 1, white, black, result);
        } else {
            proof {
                lemma_pruned(
                    width as int,
                    hints@,
                    k as int,
                    pos as int,
                    i as int,
                    cur,
                    white,
                    black,
                );
            }
        }
        assert(result@ + rest =~= before + (placed + rest));
        i += 1;
    }
}

/// All fillings of a line of `width` cells with the given hints and known
/// cells, ordered by the start of the first run, then of the second, and so
/// on.
pub fn search_line_sub(width: usize, hints: &[Hint], white: Mask, black: Mask) -> (result: Vec<
    Mask,
>)
    requires
        width < 64,
    ensures
        result@ == line_fillings(width as int, hints@, white, black),
{
    let mut result = Vec::<Mask>::new();
    proof {
        broadcast use group_mask_bits;

        lemma_includes_bits(low_bits(0), 0);
        lemma_disjoint_bits(0, white);
    }
    search_line_sub_dfs(width, 0, 0, hints, 0, white, black, &mut result);
    result
}

/// What all fillings of row `row` have in common: the intersection of the
/// fillings, taken within the line, and their union. The first holds the
/// cells that are black in every filling, the second the cells that are
/// black in some filling, so that the cells of the line outside it are white
/// in every filling. Where the row has no filling, and only there, these are
/// the whole line and the empty mask.
pub fn search_line(input: &Input, state: &State, row: usize) -> (r: (Mask, Mask))
    requires
        input.width < 64,
        row < input.row_hints.len(),
        row < state.white.len(),
        row < state.black.len(),
    ensures
        r.0 == and_all(row_fillings(input@, state@, row as int), low_bits(input.width as int)),
        r.1 == or_all(row_fillings(input@, state@, row as int), 0),
        forall|j: int|
            bit(r.0, j) == (0 <= j < input.width && forall|m: Mask|
                row_fillings(input@, state@, row as int).contains(m) ==> bit(m, j)),
        forall|j: int|
            bit(r.1, j) == (exists|m: Mask|
                row_fillings(input@, state@, row as int).contains(m) && bit(m, j)),
        input.width > 0 ==> ((r.0 == low_bits(input.width as int) && r.1 == 0) <==> row_fillings(
            input@,
            state@,
            row as int,
        ).len() == 0),
{
    let mut and: Mask = all(input.width);
    let mut or: Mask = 0;
    proof {
        broadcast use group_mask_bits;

        lemma_includes_bits(low_bits(0), 0);
        lemma_disjoint_bits(0, state.white[row as int]);
        let found = row_fillings(input@, state@, row as int);
        assert forall|j: int|
            bit(and_all(found, low_bits(input.width as int)), j) == (0 <= j < input.width
                && forall|m: Mask| found.contains(m) ==> bit(m, j)) by {
            lemma_common_black_bits(found, input.width as int, j);
        }
        assert forall|j: int|
            bit(or_all(found, 0), j) == (exists|m: Mask| found.contains(m) && bit(m, j)) by {
            lemma_or_all_bits(found, 0, j);
            if bit(or_all(found, 0), j) {
                let i = choose|i: int| 0 <= i < found.len() && bit(#[trigger] found[i], j);
                assert(found.contains(found[i]));
            }
            if exists|m: Mask| found.contains(m) && bit(m, j) {
                let m = choose|m: Mask| found.contains(m) && bit(m, j);
                let i = choose|i: int| 0 <= i < found.len() && found[i] == m;
                assert(bit(found[i], j));
            }
        }
        if input.width > 0 {
            assert forall|m: Mask| found.contains(m) implies includes(
                low_bits(input.width as int),
                m,
            ) by {
                lemma_line_fillings_inside(
                    input.width as int,
                    input@.row_hints[row as int],
                    state.white[row as int],
                    state.black[row as int],
                    m,
                );
            }
            lemma_no_filling(found, input.width as int);
        }
    }
    search_line_impl(
        input.width,
        0,
        0,
        input.row_hints[row].as_slice(),
        0,
        state.white[row],
        state.black[row],
        &mut and,
        &mut or,
    );
    (and, or)
}

/// A line whose cells have changed since the line solver last saw it.
#[derive(Clone, Copy)]
enum ActiveLine {
    Row(usize),
    Column(usize),
}

/// The line is a column, or a row, as `columns` says, and one of the first `n`.
spec fn lined(columns: bool, n: int, line: ActiveLine) -> bool {
    match line {
        ActiveLine::Row(r) => !columns && r < n,
        ActiveLine::Column(c) => columns && c < n,
    }
}

/// Column `i`, or row `i`, as `columns` says.
spec fn line_at(columns: bool, i: int) -> ActiveLine {
    if columns {
        ActiveLine::Column(i as usize)
    } else {
        ActiveLine::Row(i as usize)
    }
}

/// What activating the lines that cross the updated cells does to the marks
/// and to the queue.
spec fn activated(
    updated: Mask,
    n: int,
    columns: bool,
    before: Seq<bool>,
    after: Seq<bool>,
    queue: Seq<ActiveLine>,
    queue2: Seq<ActiveLine>,
) -> bool {
    &&& before.len() == n
    &&& after.len() == n
    &&& forall|i: int| 0 <= i < n ==> #[trigger] after[i] == (before[i] || bit(updated, i))
    &&& queue2.len() >= queue.len()
    &&& forall|q: int| 0 <= q < queue.len() ==> queue2[q] == queue[q]
    &&& forall|q: int| queue.len() <= q < queue2.len() ==> lined(columns, n, queue2[q])
    &&& forall|i: int|
        0 <= i < n && bit(updated, i) && !before[i] ==> queue2.contains(
            #[trigger] line_at(columns, i),
        )
    &&& updated == 0 ==> queue2.len() == queue.len()
}

/// Marks and queues the lines that cross an updated cell and are not marked.
fn activate(
    updated: Mask,
    n: usize,
    columns: bool,
    active: &mut Vec<bool>,
    queue: &mut VecDeque<ActiveLine>,
)
    requires
        n < 64,
        old(active).len() == n,
    ensures
        activated(
            updated,
            n as int,
            columns,
            old(active)@,
            final(active)@,
            old(queue)@,
            final(queue)@,
        ),
{
    broadcast use group_mask_bits;

    let mut j: usize = 0;
    while j < n
        invariant
            n < 64,
            j <= n,
            active.len() == n,
            old(active).len() == n,
            forall|i: int|
                0 <= i < j ==> #[trigger] active[i] == (old(active)[i] || bit(updated, i)),
            forall|i: int| j <= i < n ==> #[trigger] active[i] == old(active)[i],
            queue@.len() >= old(queue)@.len(),
            forall|q: int| 0 <= q < old(queue)@.len() ==> queue@[q] == old(queue)@[q],
            forall|q: int|
                old(queue)@.len() <= q < queue@.len() ==> lined(columns, n as int, queue@[q]),
            forall|i: int|
                0 <= i < j && bit(updated, i) && !old(active)[i] ==> queue@.contains(
                    #[trigger] line_at(columns, i),
                ),
            updated == 0 ==> queue@.len() == old(queue)@.len(),
        decreases n - j,
    {
        broadcast use group_mask_bits;

        if crate::bitop::set(updated, j) && !active[j] {
            let line = if columns {
                ActiveLine::Column(j)
            } else {
                ActiveLine::Row(j)
            };
            let ghost before = queue@;
            active.set(j, true);
            queue.push_back(line);
            proof {
                assert(queue@[before.len() as int] == line_at(columns, j as int));
                assert forall|i: int|
                    0 <= i < j + 1 && bit(updated, i) && !old(active)[i] implies queue@.contains(
                    #[trigger] line_at(columns, i),
                ) by {
                    if i < j {
                        let q = choose|q: int|
                            0 <= q < before.len() && before[q] == line_at(columns, i);
                        assert(queue@[q] == line_at(columns, i));
                    }
                }
            }
        }
        j += 1;
    }
}

/// The line is a row or a column of the puzzle.
spec fn in_puzzle(puzzle: Puzzle, line: ActiveLine) -> bool {
    match line {
        ActiveLine::Row(r) => r < puzzle.height,
        ActiveLine::Column(c) => c < puzzle.width,
    }
}

/// What holds whenever propagation takes the next line from the queue: the
/// board is between the board it began with and every settled board above
/// that one, each line that is not marked is settled, and each marked line
/// waits in the queue.
spec fn fill_inv(
    puzzle: Puzzle,
    start: Board,
    cur: Board,
    rows: Seq<bool>,
    columns: Seq<bool>,
    queue: Seq<ActiveLine>,
) -> bool {
    &&& fits(puzzle, cur)
    &&& start.le(cur)
    &&& forall|t: Board| start.le(t) && settled(puzzle, t) ==> cur.le(t)
    &&& rows.len() == puzzle.height
    &&& columns.len() == puzzle.width
    &&& forall|r: int| 0 <= r < puzzle.height && !rows[r] ==> row_settled(puzzle, cur, r)
    &&& forall|c: int| 0 <= c < puzzle.width && !columns[c] ==> column_settled(puzzle, cur, c)
    &&& forall|r: int|
        0 <= r < puzzle.height && rows[r] ==> queue.contains(#[trigger] line_at(false, r))
    &&& forall|c: int|
        0 <= c < puzzle.width && columns[c] ==> queue.contains(#[trigger] line_at(true, c))
    &&& forall|q: int| 0 <= q < queue.len() ==> in_puzzle(puzzle, #[trigger] queue[q])
}

/// A line other than the head of the queue that waits in the queue still
/// waits once the head is taken and other lines have joined the queue.
proof fn lemma_still_waits(
    queue: Seq<ActiveLine>,
    queue2: Seq<ActiveLine>,
    line: ActiveLine,
)
    requires
        queue.len() > 0,
        queue.contains(line),
        queue[0] != line,
        queue2.len() >= queue.len() - 1,
        forall|q: int| 0 <= q < queue.len() - 1 ==> queue2[q] == queue[q + 1],
    ensures
        queue2.contains(line),
{
    let q = choose|q: int| 0 <= q < queue.len() && queue[q] == line;
    assert(queue2[q - 1] == line);
}

/// Propagation goes on after a row with a filling was examined.
proof fn lemma_fill_row(
    puzzle: Puzzle,
    start: Board,
    cur: Board,
    rows: Seq<bool>,
    columns: Seq<bool>,
    queue: Seq<ActiveLine>,
    row: int,
    columns2: Seq<bool>,
    queue2: Seq<ActiveLine>,
)
    requires
        fill_inv(puzzle, start, cur, rows, columns, queue),
        queue.len() > 0,
        queue[0] == ActiveLine::Row(row as usize),
        0 <= row < puzzle.height,
        row_fillings(puzzle, cur, row).len() > 0,
        activated(
            row_news(puzzle, cur, row),
            puzzle.width,
            true,
            columns,
            columns2,
            queue.subrange(1, queue.len() as int),
            queue2,
        ),
    ensures
        fill_inv(
            puzzle,
            start,
            row_step(puzzle, cur, row),
            rows.update(row, false),
            columns2,
            queue2,
        ),
{
    let next = row_step(puzzle, cur, row);
    let rows2 = rows.update(row, false);
    let tail = queue.subrange(1, queue.len() as int);
    lemma_row_step(puzzle, cur, row);
    lemma_le_transitive(start, cur, next);
    assert forall|t: Board| start.le(t) && settled(puzzle, t) implies next.le(t) by {
        lemma_row_step_below(puzzle, cur, row, t);
    }
    assert forall|c: int| 0 <= c < puzzle.width && !columns2[c] implies column_settled(
        puzzle,
        next,
        c,
    ) by {
        lemma_row_step_columns(puzzle, cur, row, c);
    }
    assert forall|r: int| 0 <= r < puzzle.height && rows2[r] implies queue2.contains(
        #[trigger] line_at(false, r),
    ) by {
        assert(queue.contains(line_at(false, r)));
        lemma_still_waits(queue, queue2, line_at(false, r));
    }
    assert forall|c: int| 0 <= c < puzzle.width && columns2[c] implies queue2.contains(
        #[trigger] line_at(true, c),
    ) by {
        if columns[c] {
            assert(queue.contains(line_at(true, c)));
            lemma_still_waits(queue, queue2, line_at(true, c));
        }
    }
    assert forall|q: int| 0 <= q < queue2.len() implies in_puzzle(puzzle, #[trigger] queue2[q]) by {
        if q < tail.len() {
            assert(queue2[q] == queue[q + 1]);
        }
    }
}

/// Propagation goes on after a column with a filling was examined.
proof fn lemma_fill_column(
    puzzle: Puzzle,
    start: Board,
    cur: Board,
    rows: Seq<bool>,
    columns: Seq<bool>,
    queue: Seq<ActiveLine>,
    column: int,
    rows2: Seq<bool>,
    queue2: Seq<ActiveLine>,
)
    requires
        fill_inv(puzzle, start, cur, rows, columns, queue),
        queue.len() > 0,
        queue[0] == ActiveLine::Column(column as usize),
        0 <= column < puzzle.width,
        column_fillings(puzzle, cur, column).len() > 0,
        activated(
            column_news(puzzle, cur, column),
            puzzle.height,
            false,
            rows,
            rows2,
            queue.subrange(1, queue.len() as int),
            queue2,
        ),
    ensures
        fill_inv(
            puzzle,
            start,
            column_step(puzzle, cur, column),
            rows2,
            columns.update(column, false),
            queue2,
        ),
{
    let next = column_step(puzzle, cur, column);
    let columns2 = columns.update(column, false);
    let tail = queue.subrange(1, queue.len() as int);
    lemma_column_step(puzzle, cur, column);
    lemma_le_transitive(start, cur, next);
    assert forall|t: Board| start.le(t) && settled(puzzle, t) implies next.le(t) by {
        lemma_column_step_below(puzzle, cur, column, t);
    }
    assert forall|r: int| 0 <= r < puzzle.height && rows2[r] implies queue2.contains(
        #[trigger] line_at(false, r),
    ) by {
        if rows[r] {
            assert(queue.contains(line_at(false, r)));
            lemma_still_waits(queue, queue2, line_at(false, r));
        }
    }
    assert forall|c: int| 0 <= c < puzzle.width && columns2[c] implies queue2.contains(
        #[trigger] line_at(true, c),
    ) by {
        assert(queue.contains(line_at(true, c)));
        lemma_still_waits(queue, queue2, line_at(true, c));
    }
    assert forall|q: int| 0 <= q < queue2.len() implies in_puzzle(puzzle, #[trigger] queue2[q]) by {
        if q < tail.len() {
            assert(queue2[q] == queue[q + 1]);
        }
    }
}

/// Records in row `row` what the fold over the row's fillings shows, and
/// returns the cells that are news.
fn apply_search_line_result(
    state: &mut State,
    input: &Input,
    row: usize,
    and: Mask,
    or: Mask,
) -> (updated: Mask)
    requires
        input.width < 64,
        row < old(state).black.len(),
        row < old(state).white.len(),
    ensures
        final(state)@ == old(state)@.with_row(
            row as int,
            old(state).white[row as int] | (!or & low_bits(input.width as int)),
            old(state).black[row as int] | and,
        ),
        updated == without(and, old(state).black[row as int])
            | without(
            !or & low_bits(input.width as int),
            old(state).white[row as int],
        ),
{
    let must_black: Mask = and;
    let must_white: Mask = (!or) & all(input.width);
    let new_black: Mask = minus(must_black, state.black[row]);
    let new_white: Mask = minus(must_white, state.white[row]);
    let black: Mask = state.black[row] | must_black;
    let white: Mask = state.white[row] | must_white;
    state.black.set(row, black);
    state.white.set(row, white);
    new_black | new_white
}

/// Runs the line solver over rows and columns until it finds nothing new:
/// gives the least settled board that knows what `state` knows, or `None`
/// where a line is left without a filling, which is where no settled board
/// knows what `state` knows.
pub fn deterministic_fill(input: &Input, state: &State) -> (r: Option<State>)
    requires
        fits(input@, state@),
    ensures
        match r {
            Some(s) => is_propagation(input@, state@, s@) && propagation(input@, state@) == Some(
                s@,
            ),
            None => (forall|t: Board| !(state@.le(t) && settled(input@, t))) && propagation(
                input@,
                state@,
            ) is None,
        },
{
    let ghost puzzle = input@;
    let ghost start = state@;
    let mut board = state.clone();
    let input_trans = input.transpose();

    let mut row_active: Vec<bool> = vec![true; input.height];
    let mut column_active: Vec<bool> = vec![true; input.width];
    let mut queue: VecDeque<ActiveLine> = VecDeque::with_capacity(input.height + input.width);
    let mut i: usize = 0;
    while i < input.height
        invariant
            i <= input.height,
            queue@.len() == i,
            forall|q: int| 0 <= q < i ==> queue@[q] == line_at(false, q),
        decreases input.height - i,
    {
        queue.push_back(ActiveLine::Row(i));
        i += 1;
    }
    let mut j: usize = 0;
    while j < input.width
        invariant
            j <= input.width,
            queue@.len() == input.height + j,
            forall|q: int| 0 <= q < input.height ==> queue@[q] == line_at(false, q),
            forall|q: int| 0 <= q < j ==> queue@[input.height + q] == line_at(true, q),
        decreases input.width - j,
    {
        queue.push_back(ActiveLine::Column(j));
        j += 1;
    }
    proof {
        lemma_le_reflexive(start);
        assert forall|r: int| 0 <= r < puzzle.height implies queue@.contains(
            #[trigger] line_at(false, r),
        ) by {
            assert(queue@[r] == line_at(false, r));
        }
        assert forall|c: int| 0 <= c < puzzle.width implies queue@.contains(
            #[trigger] line_at(true, c),
        ) by {
            assert(queue@[puzzle.height + c] == line_at(true, c));
        }
        assert forall|q: int| 0 <= q < queue@.len() implies in_puzzle(
            puzzle,
            #[trigger] queue@[q],
        ) by {
            if q < puzzle.height {
                assert(queue@[q] == line_at(false, q));
            } else {
                assert(queue@[puzzle.height + (q - puzzle.height)] == line_at(
                    true,
                    q - puzzle.height,
                ));
            }
        }
        lemma_le_reflexive(board@);
        lemma_weight_le(board@, board@);
    }

    while queue.len() > 0
        invariant
            puzzle == input@,
            input_trans@ == puzzle.transposed(),
            start == state@,
            fill_inv(puzzle, start, board@, row_active@, column_active@, queue@),
        decreases
                2 * puzzle.height * 0xffff_ffff_ffff_ffff - weight(board@),
                queue@.len(),
    {
        let ghost before = board@;
        let ghost queue_before = queue@;
        let ghost rows_before = row_active@;
        let ghost columns_before = column_active@;
        let head = queue.pop_front().unwrap();
        assert(in_puzzle(puzzle, queue_before[0]));
        match head {
            ActiveLine::Row(row) => {
                let (and, or) = search_line(input, &board, row);
                proof {
                    assert(puzzle.row_hints[row as int] == input.row_hints[row as int]@);
                    assert forall|m: Mask| row_fillings(puzzle, before, row as int).contains(
                        m,
                    ) implies includes(low_bits(puzzle.width), m) by {
                        lemma_line_fillings_inside(
                            puzzle.width,
                            puzzle.row_hints[row as int],
                            before.white[row as int],
                            before.black[row as int],
                            m,
                        );
                    }
                    lemma_no_filling(row_fillings(puzzle, before, row as int), puzzle.width);
                }
                if and == all(input.width) && or == 0 {
                    proof {
                        assert forall|t: Board| !(start.le(t) && settled(puzzle, t)) by {
                            if start.le(t) && settled(puzzle, t) {
                                lemma_row_step_below(puzzle, before, row as int, t);
                            }
                        }
                    }
                    return None;
                }
                let updated = apply_search_line_result(&mut board, input, row, and, or);
                row_active.set(row, false);
                activate(updated, input.width, true, &mut column_active, &mut queue);
                proof {
                    assert(board@ == row_step(puzzle, before, row as int));
                    assert(updated == row_news(puzzle, before, row as int));
                    lemma_row_step(puzzle, before, row as int);
                    lemma_fill_row(
                        puzzle,
                        start,
                        before,
                        rows_before,
                        columns_before,
                        queue_before,
                        row as int,
                        column_active@,
                        queue@,
                    );
                    lemma_row_news(puzzle, before, row as int);
                    lemma_weight_le(before, board@);
                    lemma_le_reflexive(board@);
                    lemma_weight_le(board@, board@);
                }
            },
            ActiveLine::Column(column) => {
                proof {
                    lemma_transpose_fits(puzzle, before);
                }
                let mut state_trans = board.transpose();
                let ghost before_trans = state_trans@;
                let (and, or) = search_line(&input_trans, &state_trans, column);
                proof {
                    let q = puzzle.transposed();
                    assert(q.row_hints[column as int] == input_trans.row_hints[column as int]@);
                    assert forall|m: Mask| row_fillings(q, before_trans, column as int).contains(
                        m,
                    ) implies includes(low_bits(q.width), m) by {
                        lemma_line_fillings_inside(
                            q.width,
                            q.row_hints[column as int],
                            before_trans.white[column as int],
                            before_trans.black[column as int],
                            m,
                        );
                    }
                    lemma_no_filling(row_fillings(q, before_trans, column as int), q.width);
                }
                if and == all(input_trans.width) && or == 0 {
                    proof {
                        assert forall|t: Board| !(start.le(t) && settled(puzzle, t)) by {
                            if start.le(t) && settled(puzzle, t) {
                                lemma_column_step_below(puzzle, before, column as int, t);
                            }
                        }
                    }
                    return None;
                }
                let updated = apply_search_line_result(
                    &mut state_trans,
                    &input_trans,
                    column,
                    and,
                    or,
                );
                proof {
                    assert(state_trans@ == row_step(
                        puzzle.transposed(),
                        before_trans,
                        column as int,
                    ));
                    lemma_column_step(puzzle, before, column as int);
                    lemma_transpose_fits(puzzle, column_step(puzzle, before, column as int));
                }
                board = state_trans.transpose();
                column_active.set(column, false);
                activate(updated, input.height, false, &mut row_active, &mut queue);
                proof {
                    assert(board@ == column_step(puzzle, before, column as int));
                    assert(updated == column_news(puzzle, before, column as int));
                    lemma_fill_column(
                        puzzle,
                        start,
                        before,
                        rows_before,
                        columns_before,
                        queue_before,
                        column as int,
                        row_active@,
                        queue@,
                    );
                    lemma_weight_le(before, board@);
                    lemma_le_reflexive(board@);
                    lemma_weight_le(board@, board@);
                }
            },
        }
    }
    proof {
        assert forall|r: int| 0 <= r < puzzle.height implies row_settled(puzzle, board@, r) by {
            if row_active@[r] {
                assert(queue@.contains(line_at(false, r)));
            }
        }
        assert forall|c: int| 0 <= c < puzzle.width implies column_settled(puzzle, board@, c) by {
            if column_active@[c] {
                assert(queue@.contains(line_at(true, c)));
            }
        }
    }
    proof {
        lemma_propagation_some(puzzle, start, board@);
    }
    Some(board)
}

} // verus!
