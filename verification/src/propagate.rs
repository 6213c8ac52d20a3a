//! What propagation reaches: the least board above a given one on which the
//! line solver finds nothing new in any row or column.

use vstd::prelude::*;
use crate::common::{
    Board, Mask, Puzzle, lemma_column_mask_same, lemma_transpose_le, lemma_transpose_twice,
    lemma_transpose_wf,
};
use crate::bitop::{
    bit, disjoint, includes, low_bits, mask_where, without, group_mask_bits, lemma_includes_bits,
    lemma_mask_ext, lemma_mask_where_bits, lemma_subset_reflexive,
};
use crate::filling::{
    line_fillings, line_settled, must_black, must_white, lemma_line_monotone, lemma_line_settles,
};

verus! {

/// The fillings of row `row` of the board, by the puzzle's hints for it.
pub open spec fn row_fillings(puzzle: Puzzle, board: Board, row: int) -> Seq<Mask> {
    line_fillings(puzzle.width, puzzle.row_hints[row], board.white[row], board.black[row])
}

/// The line solver finds nothing new in row `row`.
pub open spec fn row_settled(puzzle: Puzzle, board: Board, row: int) -> bool {
    line_settled(puzzle.width, puzzle.row_hints[row], board.white[row], board.black[row])
}

/// The line solver finds nothing new in column `column`.
pub open spec fn column_settled(puzzle: Puzzle, board: Board, column: int) -> bool {
    row_settled(puzzle.transposed(), board.transposed(), column)
}

/// The board is a well-formed board of the puzzle's size.
pub open spec fn fits(puzzle: Puzzle, board: Board) -> bool {
    &&& puzzle.wf()
    &&& board.wf()
    &&& board.height == puzzle.height
    &&& board.width == puzzle.width
}

/// The line solver finds nothing new in any row or column of the board.
pub open spec fn settled(puzzle: Puzzle, board: Board) -> bool {
    &&& fits(puzzle, board)
    &&& forall|r: int| 0 <= r < puzzle.height ==> row_settled(puzzle, board, r)
    &&& forall|c: int| 0 <= c < puzzle.width ==> column_settled(puzzle, board, c)
}

/// `to` is the least settled board that knows all that `from` knows.
pub open spec fn is_propagation(puzzle: Puzzle, from: Board, to: Board) -> bool {
    &&& from.le(to)
    &&& settled(puzzle, to)
    &&& forall|t: Board| from.le(t) && settled(puzzle, t) ==> to.le(t)
}

/// What propagation makes of a board: the least settled board above it, or
/// nothing where no settled board is above it (`lemma_propagation_exists`).
pub open spec fn propagation(puzzle: Puzzle, board: Board) -> Option<Board> {
    if exists|t: Board| is_propagation(puzzle, board, t) {
        Some(choose|t: Board| is_propagation(puzzle, board, t))
    } else {
        None
    }
}

/// The board with what the line solver finds in row `row` recorded.
pub open spec fn row_step(puzzle: Puzzle, board: Board, row: int) -> Board {
    board.with_row(
        row,
        board.white[row] | must_white(
            puzzle.width,
            puzzle.row_hints[row],
            board.white[row],
            board.black[row],
        ),
        board.black[row] | must_black(
            puzzle.width,
            puzzle.row_hints[row],
            board.white[row],
            board.black[row],
        ),
    )
}

/// The board with what the line solver finds in column `column` recorded.
pub open spec fn column_step(puzzle: Puzzle, board: Board, column: int) -> Board {
    row_step(puzzle.transposed(), board.transposed(), column).transposed()
}

/// The sum of the masks, each taken as a number.
pub open spec fn mask_sum(s: Seq<Mask>) -> int
    decreases s.len(),
{
    if s.len() == 0 {
        0
    } else {
        mask_sum(s.drop_last()) + s.last()
    }
}

/// A number that grows with every cell that becomes known.
pub open spec fn weight(board: Board) -> int {
    mask_sum(board.black) + mask_sum(board.white)
}

/// Masks that include others sum up to no less, and to the same only if
/// they are the same masks.
proof fn lemma_mask_sum_le(s: Seq<Mask>, t: Seq<Mask>)
    requires
        s.len() == t.len(),
        forall|i: int| 0 <= i < s.len() ==> includes(#[trigger] t[i], s[i]),
    ensures
        0 <= mask_sum(s) <= mask_sum(t) <= t.len() * 0xffff_ffff_ffff_ffff,
        mask_sum(s) == mask_sum(t) ==> s =~= t,
    decreases s.len(),
{
    if s.len() > 0 {
        let x = s.last();
        let y = t.last();
        assert(includes(t[t.len() - 1], s[s.len() - 1]));
        assert(x <= y) by (bit_vector)
            requires
                y & x == x,
        ;
        assert forall|i: int| 0 <= i < s.drop_last().len() implies includes(
            #[trigger] t.drop_last()[i],
            s.drop_last()[i],
        ) by {
            assert(includes(t[i], s[i]));
        }
        lemma_mask_sum_le(s.drop_last(), t.drop_last());
        if mask_sum(s) == mask_sum(t) {
            assert(s =~= s.drop_last().push(x));
            assert(t =~= t.drop_last().push(y));
        }
    }
}

/// A board that knows more weighs more, and weighs the same only if it is
/// the same board.
pub proof fn lemma_weight_le(a: Board, b: Board)
    requires
        a.le(b),
    ensures
        0 <= weight(a) <= weight(b),
        weight(b) <= (b.black.len() + b.white.len()) * 0xffff_ffff_ffff_ffff,
        weight(a) == weight(b) ==> a == b,
{
    lemma_mask_sum_le(a.black, b.black);
    lemma_mask_sum_le(a.white, b.white);
}

/// Every board knows what it knows.
pub proof fn lemma_le_reflexive(a: Board)
    ensures
        a.le(a),
{
    assert forall|i: int| 0 <= i < a.black.len() implies includes(
        #[trigger] a.black[i],
        a.black[i],
    ) by {
        lemma_subset_reflexive(a.black[i]);
    }
    assert forall|i: int| 0 <= i < a.white.len() implies includes(
        #[trigger] a.white[i],
        a.white[i],
    ) by {
        lemma_subset_reflexive(a.white[i]);
    }
}

/// What includes a mask includes what the mask includes.
proof fn lemma_includes_transitive(a: Mask, b: Mask, c: Mask)
    requires
        includes(b, a),
        includes(c, b),
    ensures
        includes(c, a),
{
    lemma_includes_bits(b, a);
    lemma_includes_bits(c, b);
    lemma_includes_bits(c, a);
}

/// The order of knowledge is transitive.
pub proof fn lemma_le_transitive(a: Board, b: Board, c: Board)
    requires
        a.le(b),
        b.le(c),
    ensures
        a.le(c),
{
    assert forall|i: int| 0 <= i < a.black.len() implies includes(
        #[trigger] c.black[i],
        a.black[i],
    ) by {
        assert(includes(b.black[i], a.black[i]));
        lemma_includes_transitive(a.black[i], b.black[i], c.black[i]);
    }
    assert forall|i: int| 0 <= i < a.white.len() implies includes(
        #[trigger] c.white[i],
        a.white[i],
    ) by {
        assert(includes(b.white[i], a.white[i]));
        lemma_includes_transitive(a.white[i], b.white[i], c.white[i]);
    }
}

/// Two boards that know the same are the same board.
pub proof fn lemma_le_antisymmetric(a: Board, b: Board)
    requires
        a.le(b),
        b.le(a),
    ensures
        a == b,
{
    lemma_weight_le(a, b);
    lemma_weight_le(b, a);
}

/// Recording what the line solver finds in a row that has a filling gives a
/// well-formed board that knows more and in which the row is settled.
pub proof fn lemma_row_step(puzzle: Puzzle, board: Board, row: int)
    requires
        fits(puzzle, board),
        0 <= row < puzzle.height,
        row_fillings(puzzle, board, row).len() > 0,
    ensures
        fits(puzzle, row_step(puzzle, board, row)),
        board.le(row_step(puzzle, board, row)),
        row_settled(puzzle, row_step(puzzle, board, row), row),
{
    broadcast use group_mask_bits;

    let next = row_step(puzzle, board, row);
    let w = board.white[row];
    let b = board.black[row];
    let hints = puzzle.row_hints[row];
    let mw = must_white(puzzle.width, hints, w, b);
    let mb = must_black(puzzle.width, hints, w, b);
    lemma_line_settles(puzzle.width, hints, w, b);
    assert(disjoint(board.black[row], board.white[row]));
    lemma_includes_bits(low_bits(puzzle.width), b);
    lemma_includes_bits(low_bits(puzzle.width), w);
    lemma_includes_bits(low_bits(puzzle.width), mb);
    lemma_includes_bits(low_bits(puzzle.width), mw);
    lemma_includes_bits(low_bits(puzzle.width), b | mb);
    lemma_includes_bits(low_bits(puzzle.width), w | mw);
    lemma_includes_bits(b | mb, b);
    lemma_includes_bits(w | mw, w);
    assert forall|i: int| 0 <= i < next.height implies {
        &&& disjoint(#[trigger] next.black[i], next.white[i])
        &&& includes(low_bits(next.width), next.black[i])
        &&& includes(low_bits(next.width), next.white[i])
    } by {
        if i != row {
            assert(disjoint(board.black[i], board.white[i]));
        }
    }
    assert forall|i: int| 0 <= i < board.black.len() implies includes(
        #[trigger] next.black[i],
        board.black[i],
    ) by {
        if i != row {
            lemma_subset_reflexive(board.black[i]);
        }
    }
    assert forall|i: int| 0 <= i < board.white.len() implies includes(
        #[trigger] next.white[i],
        board.white[i],
    ) by {
        if i != row {
            lemma_subset_reflexive(board.white[i]);
        }
    }
}

/// A board above `board` in which the row is settled shows that the row has
/// a filling in `board`, and it knows what the line solver finds there.
pub proof fn lemma_row_step_below(puzzle: Puzzle, board: Board, row: int, above: Board)
    requires
        fits(puzzle, board),
        0 <= row < puzzle.height,
        board.le(above),
        row_settled(puzzle, above, row),
    ensures
        row_fillings(puzzle, board, row).len() > 0,
        row_step(puzzle, board, row).le(above),
{
    broadcast use group_mask_bits;

    let next = row_step(puzzle, board, row);
    let w = board.white[row];
    let b = board.black[row];
    let tw = above.white[row];
    let tb = above.black[row];
    let hints = puzzle.row_hints[row];
    assert(includes(above.black[row], board.black[row]));
    assert(includes(above.white[row], board.white[row]));
    lemma_line_monotone(puzzle.width, hints, w, b, tw, tb);
    let s = line_fillings(puzzle.width, hints, w, b);
    let t = line_fillings(puzzle.width, hints, tw, tb);
    assert(t.contains(t[0]));
    assert(s.contains(t[0]));
    let mw = must_white(puzzle.width, hints, w, b);
    let mb = must_black(puzzle.width, hints, w, b);
    lemma_includes_transitive(mb, must_black(puzzle.width, hints, tw, tb), tb);
    lemma_includes_transitive(mw, must_white(puzzle.width, hints, tw, tb), tw);
    lemma_includes_bits(tb, mb);
    lemma_includes_bits(tb, b);
    lemma_includes_bits(tb, b | mb);
    lemma_includes_bits(tw, mw);
    lemma_includes_bits(tw, w);
    lemma_includes_bits(tw, w | mw);
    assert forall|i: int| 0 <= i < next.black.len() implies includes(
        #[trigger] above.black[i],
        next.black[i],
    ) by {
        if i != row {
            assert(includes(above.black[i], board.black[i]));
        }
    }
    assert forall|i: int| 0 <= i < next.white.len() implies includes(
        #[trigger] above.white[i],
        next.white[i],
    ) by {
        if i != row {
            assert(includes(above.white[i], board.white[i]));
        }
    }
}

/// The cells of row `row` that the line solver finds and the board does not
/// know yet.
pub open spec fn row_news(puzzle: Puzzle, board: Board, row: int) -> Mask {
    without(
        must_black(puzzle.width, puzzle.row_hints[row], board.white[row], board.black[row]),
        board.black[row],
    ) | without(
        must_white(puzzle.width, puzzle.row_hints[row], board.white[row], board.black[row]),
        board.white[row],
    )
}

/// A step changes the row exactly in the cells that are news.
pub proof fn lemma_row_news(puzzle: Puzzle, board: Board, row: int)
    requires
        board.shaped(),
        0 <= row < board.height,
    ensures
        forall|j: int|
            !bit(row_news(puzzle, board, row), j) ==> bit(
                row_step(puzzle, board, row).black[row],
                j,
            ) == bit(board.black[row], j) && bit(row_step(puzzle, board, row).white[row], j)
                == bit(board.white[row], j),
        row_news(puzzle, board, row) == 0 <==> row_step(puzzle, board, row) == board,
{
    broadcast use group_mask_bits;

    let next = row_step(puzzle, board, row);
    let news = row_news(puzzle, board, row);
    if news == 0 {
        assert forall|j: int| 0 <= j < 64 implies bit(next.black[row], j) == bit(
            board.black[row],
            j,
        ) && bit(next.white[row], j) == bit(board.white[row], j) by {
            assert(!bit(news, j));
        }
        lemma_mask_ext(next.black[row], board.black[row]);
        lemma_mask_ext(next.white[row], board.white[row]);
        assert(next.black =~= board.black);
        assert(next.white =~= board.white);
    }
    if next == board {
        assert(next.black[row] == board.black[row]);
        assert(next.white[row] == board.white[row]);
        assert forall|j: int| 0 <= j < 64 implies bit(news, j) == bit(0, j) by {}
        lemma_mask_ext(news, 0);
    }
}

/// A step in a row leaves every column settled that was settled and has no
/// cell among the news.
pub proof fn lemma_row_step_columns(puzzle: Puzzle, board: Board, row: int, c: int)
    requires
        fits(puzzle, board),
        0 <= row < puzzle.height,
        0 <= c < puzzle.width,
        !bit(row_news(puzzle, board, row), c),
    ensures
        column_settled(puzzle, row_step(puzzle, board, row), c) == column_settled(
            puzzle,
            board,
            c,
        ),
{
    let next = row_step(puzzle, board, row);
    lemma_row_news(puzzle, board, row);
    lemma_column_mask_same(next.black, board.black, c, board.height);
    lemma_column_mask_same(next.white, board.white, c, board.height);
}

/// A puzzle and a board that fit still fit with rows and columns exchanged.
pub proof fn lemma_transpose_fits(puzzle: Puzzle, board: Board)
    requires
        fits(puzzle, board),
    ensures
        fits(puzzle.transposed(), board.transposed()),
        board.transposed().transposed() == board,
        puzzle.transposed().transposed() == puzzle,
{
    lemma_transpose_wf(board);
    lemma_transpose_twice(board);
}

/// The cells of column `column` that the line solver finds and the board
/// does not know yet.
pub open spec fn column_news(puzzle: Puzzle, board: Board, column: int) -> Mask {
    row_news(puzzle.transposed(), board.transposed(), column)
}

/// The fillings of column `column` of the board.
pub open spec fn column_fillings(puzzle: Puzzle, board: Board, column: int) -> Seq<Mask> {
    row_fillings(puzzle.transposed(), board.transposed(), column)
}

/// Recording what the line solver finds in a column that has a filling gives
/// a well-formed board that knows more and in which the column is settled.
/// The other columns are as they were, and so are the rows without news.
pub proof fn lemma_column_step(puzzle: Puzzle, board: Board, column: int)
    requires
        fits(puzzle, board),
        0 <= column < puzzle.width,
        column_fillings(puzzle, board, column).len() > 0,
    ensures
        fits(puzzle, column_step(puzzle, board, column)),
        board.le(column_step(puzzle, board, column)),
        column_settled(puzzle, column_step(puzzle, board, column), column),
        column_step(puzzle, board, column).transposed() == row_step(
            puzzle.transposed(),
            board.transposed(),
            column,
        ),
        forall|c: int|
            0 <= c < puzzle.width && c != column ==> column_settled(
                puzzle,
                column_step(puzzle, board, column),
                c,
            ) == column_settled(puzzle, board, c),
        forall|r: int|
            0 <= r < puzzle.height && !bit(column_news(puzzle, board, column), r) ==> row_settled(
                puzzle,
                column_step(puzzle, board, column),
                r,
            ) == row_settled(puzzle, board, r),
        column_news(puzzle, board, column) == 0 <==> column_step(puzzle, board, column) == board,
{
    let q = puzzle.transposed();
    let s = board.transposed();
    let s2 = row_step(q, s, column);
    let next = column_step(puzzle, board, column);
    lemma_transpose_fits(puzzle, board);
    lemma_row_step(q, s, column);
    lemma_transpose_fits(q, s2);
    lemma_transpose_le(s, s2);
    lemma_row_news(q, s, column);
    assert forall|r: int|
        0 <= r < puzzle.height && !bit(column_news(puzzle, board, column), r) implies row_settled(
        puzzle,
        next,
        r,
    ) == row_settled(puzzle, board, r) by {
        lemma_column_mask_same(s2.black, s.black, r, s.height);
        lemma_column_mask_same(s2.white, s.white, r, s.height);
        assert(next.black[r] == s.transposed().black[r]);
        assert(next.white[r] == s.transposed().white[r]);
    }
}

/// A settled board above `board` shows that the column has a filling in
/// `board`, and it knows what the line solver finds there.
pub proof fn lemma_column_step_below(puzzle: Puzzle, board: Board, column: int, above: Board)
    requires
        fits(puzzle, board),
        fits(puzzle, above),
        0 <= column < puzzle.width,
        board.le(above),
        column_settled(puzzle, above, column),
    ensures
        column_fillings(puzzle, board, column).len() > 0,
        column_step(puzzle, board, column).le(above),
{
    let q = puzzle.transposed();
    let s = board.transposed();
    let t = above.transposed();
    lemma_transpose_fits(puzzle, board);
    lemma_transpose_fits(puzzle, above);
    lemma_transpose_le(board, above);
    lemma_row_step_below(q, s, column, t);
    let s2 = row_step(q, s, column);
    lemma_row_step(q, s, column);
    lemma_transpose_le(s2, t);
}

/// There is at most one least settled board above a board.
pub proof fn lemma_propagation_unique(puzzle: Puzzle, from: Board, a: Board, b: Board)
    requires
        is_propagation(puzzle, from, a),
        is_propagation(puzzle, from, b),
    ensures
        a == b,
{
    lemma_le_antisymmetric(a, b);
}

/// The least settled board above a board is what propagation makes of it.
pub proof fn lemma_propagation_some(puzzle: Puzzle, from: Board, to: Board)
    requires
        is_propagation(puzzle, from, to),
    ensures
        propagation(puzzle, from) == Some(to),
{
    let chosen = choose|t: Board| is_propagation(puzzle, from, t);
    lemma_propagation_unique(puzzle, from, to, chosen);
}

/// Propagation changes nothing in a board that it has made: what it makes
/// of its own result is that result.
pub proof fn lemma_propagation_idempotent(puzzle: Puzzle, board: Board, result: Board)
    requires
        propagation(puzzle, board) == Some(result),
    ensures
        propagation(puzzle, result) == Some(result),
{
    lemma_le_reflexive(result);
    lemma_propagation_some(puzzle, result, result);
}

/// Propagation only adds knowledge: a cell that is decided before it is
/// decided after it, with the same colour.
pub proof fn lemma_propagation_monotone(puzzle: Puzzle, board: Board, result: Board)
    requires
        propagation(puzzle, board) == Some(result),
    ensures
        board.le(result),
        forall|i: int, j: int|
            0 <= i < board.black.len() && board.is_black(i, j) ==> result.is_black(i, j),
        forall|i: int, j: int|
            0 <= i < board.white.len() && board.is_white(i, j) ==> result.is_white(i, j),
{
    assert forall|i: int, j: int|
        0 <= i < board.black.len() && board.is_black(i, j) implies result.is_black(i, j) by {
        assert(includes(result.black[i], board.black[i]));
        lemma_includes_bits(result.black[i], board.black[i]);
    }
    assert forall|i: int, j: int|
        0 <= i < board.white.len() && board.is_white(i, j) implies result.is_white(i, j) by {
        assert(includes(result.white[i], board.white[i]));
        lemma_includes_bits(result.white[i], board.white[i]);
    }
}

/// The board that knows of a cell what every settled board above `from`
/// knows of it.
pub open spec fn common_knowledge(puzzle: Puzzle, from: Board) -> Board {
    Board {
        height: from.height,
        width: from.width,
        white: Seq::new(
            from.white.len(),
            |r: int|
                mask_where(
                    |j: int|
                        forall|t: Board|
                            from.le(t) && settled(puzzle, t) ==> bit(t.white[r], j),
                    64,
                ),
        ),
        black: Seq::new(
            from.black.len(),
            |r: int|
                mask_where(
                    |j: int|
                        forall|t: Board|
                            from.le(t) && settled(puzzle, t) ==> bit(t.black[r], j),
                    64,
                ),
        ),
    }
}

/// Where a settled board is above a board, there is a least one: the board
/// of what all of them know. So propagation makes nothing of a board only
/// where no settled board is above it.
pub proof fn lemma_propagation_exists(puzzle: Puzzle, from: Board, above: Board)
    requires
        from.le(above),
        settled(puzzle, above),
    ensures
        is_propagation(puzzle, from, common_knowledge(puzzle, from)),
        propagation(puzzle, from) == Some(common_knowledge(puzzle, from)),
{
    let meet = common_knowledge(puzzle, from);
    // The board is below every settled board above `from`, and above `from`.
    assert forall|t: Board| from.le(t) && settled(puzzle, t) implies meet.le(t) by {
        assert forall|r: int| 0 <= r < meet.black.len() implies includes(
            #[trigger] t.black[r],
            meet.black[r],
        ) by {
            assert forall|j: int| bit(meet.black[r], j) implies bit(t.black[r], j) by {
                lemma_mask_where_bits(
                    |j: int|
                        forall|t: Board|
                            from.le(t) && settled(puzzle, t) ==> bit(t.black[r], j),
                    64,
                    j,
                );
            }
            lemma_includes_bits(t.black[r], meet.black[r]);
        }
        assert forall|r: int| 0 <= r < meet.white.len() implies includes(
            #[trigger] t.white[r],
            meet.white[r],
        ) by {
            assert forall|j: int| bit(meet.white[r], j) implies bit(t.white[r], j) by {
                lemma_mask_where_bits(
                    |j: int|
                        forall|t: Board|
                            from.le(t) && settled(puzzle, t) ==> bit(t.white[r], j),
                    64,
                    j,
                );
            }
            lemma_includes_bits(t.white[r], meet.white[r]);
        }
    }
    assert(meet.le(above));
    lemma_le_reflexive(from);
    lemma_below_all(puzzle, from, from);
    // It is well formed, since it is below a well-formed board.
    assert(meet.wf()) by {
        assert forall|i: int| 0 <= i < meet.height implies {
            &&& disjoint(#[trigger] meet.black[i], meet.white[i])
            &&& includes(low_bits(meet.width), meet.black[i])
            &&& includes(low_bits(meet.width), meet.white[i])
        } by {
            assert(includes(above.black[i], meet.black[i]));
            assert(includes(above.white[i], meet.white[i]));
            assert(disjoint(above.black[i], above.white[i]));
            lemma_includes_bits(above.black[i], meet.black[i]);
            lemma_includes_bits(above.white[i], meet.white[i]);
            lemma_includes_bits(low_bits(meet.width), above.black[i]);
            lemma_includes_bits(low_bits(meet.width), above.white[i]);
            crate::bitop::lemma_disjoint_bits(above.black[i], above.white[i]);
            crate::bitop::lemma_disjoint_bits(meet.black[i], meet.white[i]);
            lemma_includes_bits(low_bits(meet.width), meet.black[i]);
            lemma_includes_bits(low_bits(meet.width), meet.white[i]);
        }
    }
    // A step in any line leaves it as it is, so every line is settled.
    assert forall|r: int| 0 <= r < puzzle.height implies row_settled(puzzle, meet, r) by {
        let next = row_step(puzzle, meet, r);
        lemma_row_step_below(puzzle, meet, r, above);
        lemma_row_step(puzzle, meet, r);
        assert forall|t: Board| from.le(t) && settled(puzzle, t) implies next.le(t) by {
            lemma_row_step_below(puzzle, meet, r, t);
        }
        lemma_le_transitive(from, meet, next);
        lemma_below_all(puzzle, from, next);
        lemma_le_antisymmetric(meet, next);
    }
    assert forall|c: int| 0 <= c < puzzle.width implies column_settled(puzzle, meet, c) by {
        let next = column_step(puzzle, meet, c);
        lemma_column_step_below(puzzle, meet, c, above);
        lemma_column_step(puzzle, meet, c);
        assert forall|t: Board| from.le(t) && settled(puzzle, t) implies next.le(t) by {
            lemma_column_step_below(puzzle, meet, c, t);
        }
        lemma_le_transitive(from, meet, next);
        lemma_below_all(puzzle, from, next);
        lemma_le_antisymmetric(meet, next);
    }
    lemma_propagation_some(puzzle, from, meet);
}

/// A board between `from` and every settled board above `from` knows no
/// more than what all of these know.
proof fn lemma_below_all(puzzle: Puzzle, from: Board, board: Board)
    requires
        from.le(board),
        forall|t: Board| from.le(t) && settled(puzzle, t) ==> board.le(t),
    ensures
        board.le(common_knowledge(puzzle, from)),
{
    let meet = common_knowledge(puzzle, from);
    assert forall|r: int| 0 <= r < board.black.len() implies includes(
        #[trigger] meet.black[r],
        board.black[r],
    ) by {
        assert forall|j: int| bit(board.black[r], j) implies bit(meet.black[r], j) by {
            assert forall|t: Board| from.le(t) && settled(puzzle, t) implies bit(
                t.black[r],
                j,
            ) by {
                assert(includes(t.black[r], board.black[r]));
                lemma_includes_bits(t.black[r], board.black[r]);
            }
            lemma_mask_where_bits(
                |j: int| forall|t: Board| from.le(t) && settled(puzzle, t) ==> bit(t.black[r], j),
                64,
                j,
            );
        }
        lemma_includes_bits(meet.black[r], board.black[r]);
    }
    assert forall|r: int| 0 <= r < board.white.len() implies includes(
        #[trigger] meet.white[r],
        board.white[r],
    ) by {
        assert forall|j: int| bit(board.white[r], j) implies bit(meet.white[r], j) by {
            assert forall|t: Board| from.le(t) && settled(puzzle, t) implies bit(
                t.white[r],
                j,
            ) by {
                assert(includes(t.white[r], board.white[r]));
                lemma_includes_bits(t.white[r], board.white[r]);
            }
            lemma_mask_where_bits(
                |j: int| forall|t: Board| from.le(t) && settled(puzzle, t) ==> bit(t.white[r], j),
                64,
                j,
            );
        }
        lemma_includes_bits(meet.white[r], board.white[r]);
    }
}

} // verus!
