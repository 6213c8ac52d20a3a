//! The puzzle, the board and the cells they are made of.

use vstd::prelude::*;
use crate::bitop::{
    bit, count_bits, disjoint, includes, low_bits, group_mask_bits, lemma_disjoint_bits,
    lemma_includes_bits, lemma_mask_ext, lemma_subset_reflexive,
};

verus! {

/// One line of cells, one bit per cell: bit `j` stands for cell `j` of the line.
pub type Mask = u64;

/// The length of one run of black cells.
pub type Hint = usize;

/// The colour of a decided cell.
#[derive(Clone, Copy, Debug, PartialEq, Eq, Structural)]
pub enum Cell {
    Black,
    White,
}

/// A fully decided grid, row by row.
pub type Solution = Vec<Vec<Cell>>;

/// The hints of a puzzle: for each row and each column the lengths of its
/// runs of black cells, in order.
#[derive(Default, Debug)]
pub struct Input {
    pub width: usize,
    pub height: usize,
    pub row_hints: Vec<Vec<Hint>>,
    pub column_hints: Vec<Vec<Hint>>,
}

/// What is known of the cells: per row one mask of the cells known white and
/// one of the cells known black.
#[derive(Debug, PartialEq)]
pub struct State {
    pub height: usize,
    pub width: usize,
    pub white: Vec<Mask>,
    pub black: Vec<Mask>,
}

/// The mathematical content of an [`Input`].
pub struct Puzzle {
    pub width: int,
    pub height: int,
    pub row_hints: Seq<Seq<Hint>>,
    pub column_hints: Seq<Seq<Hint>>,
}

/// The mathematical content of a [`State`].
pub struct Board {
    pub height: int,
    pub width: int,
    pub white: Seq<Mask>,
    pub black: Seq<Mask>,
}

/// The hint lists of a table, each as a sequence.
pub open spec fn hint_table(table: Seq<Vec<Hint>>) -> Seq<Seq<Hint>> {
    Seq::new(table.len(), |i: int| table[i]@)
}

/// The mask that holds, for each of the first `n` rows, whether the row has
/// cell `j`: bit `i` is bit `j` of `rows[i]`.
pub open spec fn column_mask(rows: Seq<Mask>, j: int, n: int) -> Mask
    decreases n,
{
    if n <= 0 {
        0
    } else if bit(rows[n - 1], j) {
        column_mask(rows, j, n - 1) | (1u64 << ((n - 1) as u64))
    } else {
        column_mask(rows, j, n - 1)
    }
}

/// The sum of the hints of one line.
pub open spec fn hint_sum(hints: Seq<Hint>) -> int
    decreases hints.len(),
{
    if hints.len() == 0 {
        0
    } else {
        hint_sum(hints.drop_last()) + hints.last()
    }
}

/// The rows of a solution, each as a sequence.
pub open spec fn grid(rows: Seq<Vec<Cell>>) -> Seq<Seq<Cell>> {
    Seq::new(rows.len(), |i: int| rows[i]@)
}

/// The columns of a grid of `width` columns, each as a mask over the rows.
pub open spec fn column_masks(rows: Seq<Mask>, width: int) -> Seq<Mask> {
    Seq::new(width as nat, |j: int| column_mask(rows, j, rows.len() as int))
}

impl Puzzle {
    /// Both sides are positive and fit a mask, and there is one hint list per
    /// row and per column.
    pub open spec fn wf(self) -> bool {
        &&& 0 < self.width < 64
        &&& 0 < self.height < 64
        &&& self.row_hints.len() == self.height
        &&& self.column_hints.len() == self.width
    }

    /// The puzzle with rows and columns exchanged.
    pub open spec fn transposed(self) -> Puzzle {
        Puzzle {
            width: self.height,
            height: self.width,
            row_hints: self.column_hints,
            column_hints: self.row_hints,
        }
    }
}

impl Board {
    /// There is one pair of masks per row and a row fits a mask.
    pub open spec fn shaped(self) -> bool {
        &&& 0 <= self.width < 64
        &&& 0 <= self.height
        &&& self.white.len() == self.height
        &&& self.black.len() == self.height
    }

    /// The board is shaped, no mask reaches beyond the width, and no cell is
    /// claimed both colours.
    pub open spec fn wf(self) -> bool {
        &&& self.shaped()
        &&& forall|i: int|
            0 <= i < self.height ==> {
                &&& disjoint(#[trigger] self.black[i], self.white[i])
                &&& includes(low_bits(self.width), self.black[i])
                &&& includes(low_bits(self.width), self.white[i])
            }
    }

    /// The board of the given size with nothing known.
    pub open spec fn blank(height: int, width: int) -> Board {
        Board {
            height,
            width,
            white: Seq::new(height as nat, |i: int| 0u64),
            black: Seq::new(height as nat, |i: int| 0u64),
        }
    }

    /// The board of the given size with every cell known white.
    pub open spec fn all_white(height: int, width: int) -> Board {
        Board {
            height,
            width,
            white: Seq::new(height as nat, |i: int| low_bits(width)),
            black: Seq::new(height as nat, |i: int| 0u64),
        }
    }

    /// Cell `(i, j)` is known black.
    pub open spec fn is_black(self, i: int, j: int) -> bool {
        bit(self.black[i], j)
    }

    /// Cell `(i, j)` is known white.
    pub open spec fn is_white(self, i: int, j: int) -> bool {
        bit(self.white[i], j)
    }

    /// Cell `(i, j)` is undecided.
    pub open spec fn is_empty(self, i: int, j: int) -> bool {
        !self.is_white(i, j) && !self.is_black(i, j)
    }

    /// Cell `(i, j)` is inside the grid.
    pub open spec fn has_cell(self, i: int, j: int) -> bool {
        0 <= i < self.height && 0 <= j < self.width
    }

    /// No cell of the grid is undecided.
    pub open spec fn complete(self) -> bool {
        forall|i: int, j: int| self.has_cell(i, j) ==> !#[trigger] self.is_empty(i, j)
    }

    /// Everything known in `self` is known in `other`, with the same colour.
    pub open spec fn le(self, other: Board) -> bool {
        &&& self.height == other.height
        &&& self.width == other.width
        &&& self.white.len() == other.white.len()
        &&& self.black.len() == other.black.len()
        &&& forall|i: int|
            0 <= i < self.black.len() ==> includes(#[trigger] other.black[i], self.black[i])
        &&& forall|i: int|
            0 <= i < self.white.len() ==> includes(#[trigger] other.white[i], self.white[i])
    }

    /// The board with rows and columns exchanged.
    pub open spec fn transposed(self) -> Board {
        Board {
            height: self.width,
            width: self.height,
            white: column_masks(self.white, self.width),
            black: column_masks(self.black, self.width),
        }
    }

    /// In each row the black cells are as many as the row's hints ask for.
    pub open spec fn tallied(self, puzzle: Puzzle) -> bool {
        forall|i: int|
            0 <= i < self.black.len() && i < puzzle.row_hints.len() ==> hint_sum(
                #[trigger] puzzle.row_hints[i],
            ) == count_bits(self.black[i], 64)
    }

    /// The colour of each cell, row by row: white where the cell is known
    /// white, black elsewhere.
    pub open spec fn cells(self) -> Seq<Seq<Cell>> {
        Seq::new(
            self.height as nat,
            |i: int|
                Seq::new(
                    self.width as nat,
                    |j: int|
                        if self.is_white(i, j) {
                            Cell::White
                        } else {
                            Cell::Black
                        },
                ),
        )
    }

    /// The board with the masks of row `row` replaced.
    pub open spec fn with_row(self, row: int, white: Mask, black: Mask) -> Board {
        Board { white: self.white.update(row, white), black: self.black.update(row, black), ..self }
    }

    /// The board with `cell` recorded at `(i, j)`.
    pub open spec fn with_cell(self, i: int, j: int, cell: Cell) -> Board {
        match cell {
            Cell::Black => Board {
                black: self.black.update(i, self.black[i] | (1u64 << (j as u64))),
                ..self
            },
            Cell::White => Board {
                white: self.white.update(i, self.white[i] | (1u64 << (j as u64))),
                ..self
            },
        }
    }

    /// The board with both colour bits of `(i, j)` inverted.
    pub open spec fn with_flipped(self, i: int, j: int) -> Board {
        Board {
            black: self.black.update(i, self.black[i] ^ (1u64 << (j as u64))),
            white: self.white.update(i, self.white[i] ^ (1u64 << (j as u64))),
            ..self
        }
    }
}

impl View for Input {
    type V = Puzzle;

    /// The sizes and the hints of the rows and columns as sequences.
    open spec fn view(&self) -> Puzzle {
        Puzzle {
            width: self.width as int,
            height: self.height as int,
            row_hints: hint_table(self.row_hints@),
            column_hints: hint_table(self.column_hints@),
        }
    }
}

impl View for State {
    type V = Board;

    /// The sizes and the masks of the rows as sequences.
    open spec fn view(&self) -> Board {
        Board {
            height: self.height as int,
            width: self.width as int,
            white: self.white@,
            black: self.black@,
        }
    }
}

/// A copy of a table of hints.
fn copy_hints(table: &Vec<Vec<Hint>>) -> (r: Vec<Vec<Hint>>)
    ensures
        hint_table(r@) == hint_table(table@),
{
    let mut r: Vec<Vec<Hint>> = Vec::new();
    let mut i: usize = 0;
    while i < table.len()
        invariant
            i <= table.len(),
            r.len() == i,
            forall|k: int| 0 <= k < i ==> r[k]@ == table[k]@,
        decreases table.len() - i,
    {
        let mut line: Vec<Hint> = Vec::new();
        let mut j: usize = 0;
        while j < table[i].len()
            invariant
                i < table.len(),
                j <= table[i as int].len(),
                line@ == table[i as int]@.take(j as int),
            decreases table[i as int].len() - j,
        {
            line.push(table[i][j]);
            j += 1;
        }
        assert(line@ == table[i as int]@);
        r.push(line);
        i += 1;
    }
    assert(hint_table(r@) =~= hint_table(table@));
    r
}

impl Clone for Input {
    /// A copy with the same content.
    fn clone(&self) -> (r: Input)
        ensures
            r@ == self@,
    {
        Input {
            width: self.width,
            height: self.height,
            row_hints: copy_hints(&self.row_hints),
            column_hints: copy_hints(&self.column_hints),
        }
    }
}

impl Input {
    /// The puzzle with rows and columns exchanged.
    pub fn transpose(&self) -> (r: Input)
        ensures
            r@ == self@.transposed(),
    {
        Input {
            width: self.height,
            height: self.width,
            row_hints: copy_hints(&self.column_hints),
            column_hints: copy_hints(&self.row_hints),
        }
    }
}

impl Clone for State {
    /// A copy with the same content.
    fn clone(&self) -> (r: State)
        ensures
            r@ == self@,
    {
        let white = self.white.clone();
        let black = self.black.clone();
        assert(white@ =~= self.white@);
        assert(black@ =~= self.black@);
        State { height: self.height, width: self.width, white, black }
    }
}

impl State {
    /// The board of the given size with nothing known.
    pub fn new(height: usize, width: usize) -> (r: State)
        requires
            width < 64,
        ensures
            r@ == Board::blank(height as int, width as int),
            forall|i: int, j: int| 0 <= i < height ==> r@.is_empty(i, j),
    {
        broadcast use group_mask_bits;

        let white: Vec<Mask> = vec![0; height];
        let black: Vec<Mask> = vec![0; height];
        assert(white@ =~= Board::blank(height as int, width as int).white);
        assert(black@ =~= Board::blank(height as int, width as int).black);
        State { height, width, white, black }
    }

    /// Whether cell `(i, j)` is known white.
    pub fn white(&self, i: usize, j: usize) -> (r: bool)
        requires
            i < self.white.len(),
            j < 64,
        ensures
            r == self@.is_white(i as int, j as int),
    {
        self.white[i] >> j & 1 == 1
    }

    /// Whether cell `(i, j)` is known black.
    pub fn black(&self, i: usize, j: usize) -> (r: bool)
        requires
            i < self.black.len(),
            j < 64,
        ensures
            r == self@.is_black(i as int, j as int),
    {
        self.black[i] >> j & 1 == 1
    }

    /// Whether cell `(i, j)` is undecided.
    pub fn empty(&self, i: usize, j: usize) -> (r: bool)
        requires
            i < self.white.len(),
            i < self.black.len(),
            j < 64,
        ensures
            r == self@.is_empty(i as int, j as int),
    {
        !self.white(i, j) && !self.black(i, j)
    }

    /// Records `cell` at the undecided cell `(i, j)`.
    pub fn set(&mut self, i: usize, j: usize, cell: Cell)
        requires
            i < old(self).white.len(),
            i < old(self).black.len(),
            j < 64,
            old(self)@.is_empty(i as int, j as int),
        ensures
            final(self)@ == old(self)@.with_cell(i as int, j as int, cell),
            forall|a: int, b: int|
                0 <= a < old(self).black.len() ==> final(self)@.is_black(a, b) == (old(
                    self,
                )@.is_black(a, b) || (cell == Cell::Black && a == i && b == j)),
            forall|a: int, b: int|
                0 <= a < old(self).white.len() ==> final(self)@.is_white(a, b) == (old(
                    self,
                )@.is_white(a, b) || (cell == Cell::White && a == i && b == j)),
    {
        broadcast use group_mask_bits;

        match cell {
            Cell::Black => {
                let m = self.black[i] | (1u64 << j);
                self.black.set(i, m);
            },
            Cell::White => {
                let m = self.white[i] | (1u64 << j);
                self.white.set(i, m);
            },
        }
    }

    /// Turns the decided cell `(i, j)` into the other colour.
    pub fn flip(&mut self, i: usize, j: usize)
        requires
            i < old(self).white.len(),
            i < old(self).black.len(),
            j < 64,
            !old(self)@.is_empty(i as int, j as int),
        ensures
            final(self)@ == old(self)@.with_flipped(i as int, j as int),
            forall|a: int, b: int|
                0 <= a < old(self).black.len() ==> final(self)@.is_black(a, b) == (old(
                    self,
                )@.is_black(a, b) != (a == i && b == j)),
            forall|a: int, b: int|
                0 <= a < old(self).white.len() ==> final(self)@.is_white(a, b) == (old(
                    self,
                )@.is_white(a, b) != (a == i && b == j)),
    {
        broadcast use group_mask_bits;

        let b = self.black[i] ^ (1u64 << j);
        self.black.set(i, b);
        let w = self.white[i] ^ (1u64 << j);
        self.white.set(i, w);
    }

    /// The board with rows and columns exchanged.
    pub fn transpose(&self) -> (r: State)
        requires
            self@.shaped(),
            self.height < 64,
        ensures
            r@ == self@.transposed(),
            forall|i: int, j: int|
                self@.has_cell(i, j) ==> r@.is_black(j, i) == self@.is_black(i, j) && r@.is_white(
                    j,
                    i,
                ) == self@.is_white(i, j),
    {
        proof {
            assert forall|i: int, j: int| self@.has_cell(i, j) implies self@.transposed().is_black(
                j,
                i,
            ) == self@.is_black(i, j) && self@.transposed().is_white(j, i) == self@.is_white(
                i,
                j,
            ) by {
                lemma_column_mask_bits(self.black@, j, self.height as int, i);
                lemma_column_mask_bits(self.white@, j, self.height as int, i);
            }
        }
        let mut white: Vec<Mask> = vec![0; self.width];
        let mut black: Vec<Mask> = vec![0; self.width];
        let mut i: usize = 0;
        while i < self.height
            invariant
                self@.shaped(),
                self.height < 64,
                i <= self.height,
                white.len() == self.width,
                black.len() == self.width,
                forall|c: int|
                    0 <= c < self.width ==> white[c] == column_mask(self.white@, c, i as int),
                forall|c: int|
                    0 <= c < self.width ==> black[c] == column_mask(self.black@, c, i as int),
            decreases self.height - i,
        {
            let mut j: usize = 0;
            while j < self.width
                invariant
                    self@.shaped(),
                    self.height < 64,
                    i < self.height,
                    j <= self.width,
                    white.len() == self.width,
                    black.len() == self.width,
                    forall|c: int|
                        0 <= c < j ==> white[c] == column_mask(self.white@, c, i as int + 1),
                    forall|c: int|
                        j <= c < self.width ==> white[c] == column_mask(self.white@, c, i as int),
                    forall|c: int|
                        0 <= c < j ==> black[c] == column_mask(self.black@, c, i as int + 1),
                    forall|c: int|
                        j <= c < self.width ==> black[c] == column_mask(self.black@, c, i as int),
                decreases self.width - j,
            {
                if crate::bitop::set(self.white[i], j) {
                    let m: Mask = white[j] | (1u64 << i);
                    white.set(j, m);
                }
                if crate::bitop::set(self.black[i], j) {
                    let m: Mask = black[j] | (1u64 << i);
                    black.set(j, m);
                }
                j += 1;
            }
            i += 1;
        }
        assert(white@ =~= column_masks(self.white@, self.width as int));
        assert(black@ =~= column_masks(self.black@, self.width as int));
        State { height: self.width, width: self.height, white, black }
    }

    /// Whether each row has as many black cells as its hints ask for. A board
    /// in which propagation finds nothing new solves the puzzle exactly if it
    /// passes this test.
    pub fn solved(&self, input: &Input) -> (r: bool)
        ensures
            r == self@.tallied(input@),
    {
        let mut i: usize = 0;
        while i < self.black.len() && i < input.row_hints.len()
            invariant
                forall|r: int|
                    0 <= r < i ==> hint_sum(#[trigger] input@.row_hints[r]) == count_bits(
                        self.black[r],
                        64,
                    ),
            decreases self.black.len() - i,
        {
            let count: usize = count_ones(self.black[i]);
            if !sums_to(input.row_hints[i].as_slice(), count) {
                assert(input@.row_hints[i as int] == input.row_hints[i as int]@);
                return false;
            }
            assert(input@.row_hints[i as int] == input.row_hints[i as int]@);
            i += 1;
        }
        true
    }

    /// The grid of colours of a board without undecided cells.
    pub fn to_solution(&self) -> (r: Solution)
        requires
            self@.shaped(),
            self@.complete(),
        ensures
            grid(r@) == self@.cells(),
    {
        let mut result: Vec<Vec<Cell>> = Vec::new();
        let mut i: usize = 0;
        while i < self.height
            invariant
                self@.shaped(),
                i <= self.height,
                result.len() == i,
                forall|r: int| 0 <= r < i ==> (#[trigger] result[r])@ == self@.cells()[r],
            decreases self.height - i,
        {
            let mut line: Vec<Cell> = Vec::new();
            let mut j: usize = 0;
            while j < self.width
                invariant
                    self@.shaped(),
                    i < self.height,
                    j <= self.width,
                    line.len() == j,
                    forall|c: int| 0 <= c < j ==> #[trigger] line[c] == self@.cells()[i as int][c],
                decreases self.width - j,
            {
                let cell = if crate::bitop::set(self.white[i], j) {
                    Cell::White
                } else {
                    Cell::Black
                };
                line.push(cell);
                j += 1;
            }
            assert(line@ =~= self@.cells()[i as int]);
            result.push(line);
            i += 1;
        }
        assert(grid(result@) =~= self@.cells());
        result
    }
}

/// The number of cells of a mask.
fn count_ones(m: Mask) -> (r: usize)
    ensures
        r == count_bits(m, 64),
{
    let mut r: usize = 0;
    let mut i: usize = 0;
    while i < 64
        invariant
            i <= 64,
            r == count_bits(m, i as int),
            r <= i,
        decreases 64 - i,
    {
        if crate::bitop::set(m, i) {
            r += 1;
        }
        i += 1;
    }
    r
}

/// The sum of a prefix of the hints is no more than the sum of all.
proof fn lemma_hint_sum_prefix(hints: Seq<Hint>, n: int)
    requires
        0 <= n <= hints.len(),
    ensures
        hint_sum(hints.take(n)) <= hint_sum(hints),
    decreases hints.len() - n,
{
    if n == hints.len() {
        assert(hints.take(n) =~= hints);
    } else {
        lemma_hint_sum_prefix(hints, n + 1);
        assert(hints.take(n + 1).drop_last() =~= hints.take(n));
    }
}

/// Whether the hints sum to `total`.
fn sums_to(hints: &[Hint], total: usize) -> (r: bool)
    ensures
        r == (hint_sum(hints@) == total),
{
    let mut sum: usize = 0;
    let mut i: usize = 0;
    while i < hints.len()
        invariant
            i <= hints.len(),
            sum == hint_sum(hints@.take(i as int)),
            sum <= total,
        decreases hints.len() - i,
    {
        proof {
            lemma_hint_sum_prefix(hints@, i as int + 1);
            assert(hints@.take(i as int + 1).drop_last() =~= hints@.take(i as int));
        }
        if hints[i] > total - sum {
            return false;
        }
        sum += hints[i];
        i += 1;
    }
    assert(hints@.take(i as int) =~= hints@);
    sum == total
}

/// Bit `i` of a column mask is bit `j` of row `i`.
pub proof fn lemma_column_mask_bits(rows: Seq<Mask>, j: int, n: int, i: int)
    requires
        0 <= n <= 64,
    ensures
        bit(column_mask(rows, j, n), i) == (0 <= i < n && bit(rows[i], j)),
    decreases n,
{
    broadcast use group_mask_bits;

    if n > 0 {
        lemma_column_mask_bits(rows, j, n - 1, i);
    }
}

/// A column mask depends on the column's cells alone.
pub proof fn lemma_column_mask_same(a: Seq<Mask>, b: Seq<Mask>, j: int, n: int)
    requires
        0 <= n <= 64,
        forall|i: int| 0 <= i < n ==> bit(a[i], j) == bit(b[i], j),
    ensures
        column_mask(a, j, n) == column_mask(b, j, n),
{
    assert forall|i: int| 0 <= i < 64 implies bit(column_mask(a, j, n), i) == bit(
        column_mask(b, j, n),
        i,
    ) by {
        lemma_column_mask_bits(a, j, n, i);
        lemma_column_mask_bits(b, j, n, i);
    }
    lemma_mask_ext(column_mask(a, j, n), column_mask(b, j, n));
}

/// Exchanging rows and columns twice gives the board back.
pub proof fn lemma_transpose_twice(b: Board)
    requires
        b.wf(),
        b.height < 64,
    ensures
        b.transposed().transposed() == b,
{
    broadcast use group_mask_bits;

    let t = b.transposed();
    let u = t.transposed();
    assert forall|i: int| 0 <= i < b.height implies u.black[i] == b.black[i] && u.white[i]
        == b.white[i] by {
        assert(disjoint(b.black[i], b.white[i]));
        lemma_includes_bits(low_bits(b.width), b.black[i]);
        lemma_includes_bits(low_bits(b.width), b.white[i]);
        assert forall|j: int| 0 <= j < 64 implies bit(u.black[i], j) == bit(b.black[i], j) && bit(
            u.white[i],
            j,
        ) == bit(b.white[i], j) by {
            lemma_column_mask_bits(t.black, i, b.width, j);
            lemma_column_mask_bits(t.white, i, b.width, j);
            if j < b.width {
                lemma_column_mask_bits(b.black, j, b.height, i);
                lemma_column_mask_bits(b.white, j, b.height, i);
            }
        }
        lemma_mask_ext(u.black[i], b.black[i]);
        lemma_mask_ext(u.white[i], b.white[i]);
    }
    assert(u.black =~= b.black);
    assert(u.white =~= b.white);
}

/// The transposed board of a well-formed board is well formed.
pub proof fn lemma_transpose_wf(b: Board)
    requires
        b.wf(),
        b.height < 64,
    ensures
        b.transposed().wf(),
{
    broadcast use group_mask_bits;

    let t = b.transposed();
    assert forall|j: int| 0 <= j < t.height implies {
        &&& disjoint(#[trigger] t.black[j], t.white[j])
        &&& includes(low_bits(t.width), t.black[j])
        &&& includes(low_bits(t.width), t.white[j])
    } by {
        assert forall|i: int|
            !(bit(t.black[j], i) && bit(t.white[j], i)) && (bit(t.black[j], i) ==> bit(
                low_bits(t.width),
                i,
            )) && (bit(t.white[j], i) ==> bit(low_bits(t.width), i)) by {
            lemma_column_mask_bits(b.black, j, b.height, i);
            lemma_column_mask_bits(b.white, j, b.height, i);
            if 0 <= i < b.height {
                assert(disjoint(b.black[i], b.white[i]));
                lemma_disjoint_bits(b.black[i], b.white[i]);
            }
        }
        lemma_disjoint_bits(t.black[j], t.white[j]);
        lemma_includes_bits(low_bits(t.width), t.black[j]);
        lemma_includes_bits(low_bits(t.width), t.white[j]);
    }
}

/// Exchanging rows and columns keeps the order of knowledge.
pub proof fn lemma_transpose_le(a: Board, b: Board)
    requires
        a.le(b),
        a.shaped(),
        a.height < 64,
    ensures
        a.transposed().le(b.transposed()),
{
    let s = a.transposed();
    let t = b.transposed();
    assert forall|j: int| 0 <= j < s.black.len() implies includes(
        #[trigger] t.black[j],
        s.black[j],
    ) by {
        assert forall|i: int| bit(s.black[j], i) implies bit(t.black[j], i) by {
            lemma_column_mask_bits(a.black, j, a.height, i);
            lemma_column_mask_bits(b.black, j, a.height, i);
            assert(includes(b.black[i], a.black[i]));
            lemma_includes_bits(b.black[i], a.black[i]);
        }
        lemma_includes_bits(t.black[j], s.black[j]);
    }
    assert forall|j: int| 0 <= j < s.white.len() implies includes(
        #[trigger] t.white[j],
        s.white[j],
    ) by {
        assert forall|i: int| bit(s.white[j], i) implies bit(t.white[j], i) by {
            lemma_column_mask_bits(a.white, j, a.height, i);
            lemma_column_mask_bits(b.white, j, a.height, i);
            assert(includes(b.white[i], a.white[i]));
            lemma_includes_bits(b.white[i], a.white[i]);
        }
        lemma_includes_bits(t.white[j], s.white[j]);
    }
}

/// Recording a colour in an undecided cell of the grid gives a well-formed
/// board that knows more.
pub proof fn lemma_with_cell(board: Board, i: int, j: int, cell: Cell)
    requires
        board.wf(),
        board.has_cell(i, j),
        board.is_empty(i, j),
    ensures
        board.with_cell(i, j, cell).wf(),
        board.le(board.with_cell(i, j, cell)),
        board.with_cell(i, j, cell) != board,
        !board.with_cell(i, j, cell).is_empty(i, j),
{
    broadcast use group_mask_bits;

    let next = board.with_cell(i, j, cell);
    assert(disjoint(board.black[i], board.white[i]));
    lemma_disjoint_bits(board.black[i], board.white[i]);
    lemma_includes_bits(low_bits(board.width), board.black[i]);
    lemma_includes_bits(low_bits(board.width), board.white[i]);
    lemma_disjoint_bits(next.black[i], next.white[i]);
    lemma_includes_bits(low_bits(board.width), next.black[i]);
    lemma_includes_bits(low_bits(board.width), next.white[i]);
    lemma_includes_bits(next.black[i], board.black[i]);
    lemma_includes_bits(next.white[i], board.white[i]);
    assert forall|r: int| 0 <= r < next.height implies {
        &&& disjoint(#[trigger] next.black[r], next.white[r])
        &&& includes(low_bits(next.width), next.black[r])
        &&& includes(low_bits(next.width), next.white[r])
    } by {
        if r != i {
            assert(disjoint(board.black[r], board.white[r]));
        }
    }
    assert forall|r: int| 0 <= r < board.black.len() implies includes(
        #[trigger] next.black[r],
        board.black[r],
    ) by {
        if r != i {
            lemma_subset_reflexive(board.black[r]);
        }
    }
    assert forall|r: int| 0 <= r < board.white.len() implies includes(
        #[trigger] next.white[r],
        board.white[r],
    ) by {
        if r != i {
            lemma_subset_reflexive(board.white[r]);
        }
    }
    assert(next.is_black(i, j) || next.is_white(i, j));
}

/// The other colour.
pub open spec fn opposite(cell: Cell) -> Cell {
    match cell {
        Cell::Black => Cell::White,
        Cell::White => Cell::Black,
    }
}

/// Flipping a cell that was just recorded in an undecided cell records the
/// other colour instead.
pub proof fn lemma_flip_opposite(board: Board, i: int, j: int, cell: Cell)
    requires
        board.shaped(),
        board.has_cell(i, j),
        board.is_empty(i, j),
    ensures
        board.with_cell(i, j, cell).with_flipped(i, j) == board.with_cell(i, j, opposite(cell)),
{
    broadcast use group_mask_bits;

    let a = board.with_cell(i, j, cell).with_flipped(i, j);
    let b = board.with_cell(i, j, opposite(cell));
    assert forall|k: int| 0 <= k < 64 implies bit(a.black[i], k) == bit(b.black[i], k) && bit(
        a.white[i],
        k,
    ) == bit(b.white[i], k) by {}
    lemma_mask_ext(a.black[i], b.black[i]);
    lemma_mask_ext(a.white[i], b.white[i]);
    assert(a.black =~= b.black);
    assert(a.white =~= b.white);
}

} // verus!
