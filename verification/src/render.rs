//! The text of a solution: one line per row, a letter `x` for a black cell
//! and a dot for a white one.

use vstd::prelude::*;
use colored::Colorize;
use crate::common::{Cell, Input, Solution};

verus! {

/// The text of a white cell.
pub open spec fn white_text() -> Seq<char> {
    seq!['.']
}

/// The text of the first `n` cells of a row, with `black` for the text of a
/// black cell.
pub open spec fn line_text(cells: Seq<Cell>, n: int, black: Seq<char>) -> Seq<char>
    decreases n,
{
    if n <= 0 {
        Seq::empty()
    } else if cells[n - 1] == Cell::Black {
        line_text(cells, n - 1, black) + black
    } else {
        line_text(cells, n - 1, black) + white_text()
    }
}

/// The lines are the texts of the first `height` rows, each `width` cells
/// wide.
pub open spec fn rendered(
    lines: Seq<String>,
    rows: Seq<Vec<Cell>>,
    height: int,
    width: int,
    black: Seq<char>,
) -> bool {
    &&& lines.len() == height
    &&& forall|i: int|
        0 <= i < height ==> (#[trigger] lines[i])@ == line_text(rows[i]@, width, black)
}

/// The letter `x` as `colored` writes it in bold cyan. Calls
/// `Colorize::cyan` on the letter and `Colorize::bold` on the result, and
/// formats the styled string by its `Display`. Whether `colored` then
/// writes the letter alone or puts it between escape sequences depends on
/// the terminal, on the environment and on an override that a program can
/// set, so nothing is claimed of the text, and two calls need not agree.
#[verifier::external_body]
fn black_cell() -> (r: String) {
    format!("{}", "x".cyan().bold())
}

/// Appends `text` to `line` by `String::push_str`.
#[verifier::external_body]
fn push_text(line: &mut String, text: &str)
    ensures
        final(line)@ == old(line)@ + text@,
{
    line.push_str(text)
}

/// The text of the first `width` cells of a row, with `black` for a black
/// cell.
pub fn render_line(cells: &[Cell], width: usize, black: &str) -> (line: String)
    requires
        width <= cells.len(),
    ensures
        line@ == line_text(cells@, width as int, black@),
{
    let mut line = String::new();
    let mut j: usize = 0;
    while j < width
        invariant
            j <= width <= cells.len(),
            line@ == line_text(cells@, j as int, black@),
        decreases width - j,
    {
        match cells[j] {
            Cell::Black => push_text(&mut line, black),
            Cell::White => {
                proof {
                    reveal_strlit(".");
                    assert("."@ =~= white_text());
                }
                push_text(&mut line, ".")
            },
        }
        j += 1;
    }
    line
}

/// The text of the solution, with `black` for a black cell.
pub fn render_with(input: &Input, solution: &Solution, black: &str) -> (lines: Vec<String>)
    requires
        input.height <= solution.len(),
        forall|i: int| 0 <= i < input.height ==> input.width <= (#[trigger] solution[i]).len(),
    ensures
        rendered(lines@, solution@, input.height as int, input.width as int, black@),
{
    let mut lines: Vec<String> = Vec::new();
    let mut i: usize = 0;
    while i < input.height
        invariant
            i <= input.height <= solution.len(),
            forall|i: int| 0 <= i < input.height ==> input.width <= (#[trigger] solution[i]).len(),
            rendered(lines@, solution@, i as int, input.width as int, black@),
        decreases input.height - i,
    {
        let line = render_line(solution[i].as_slice(), input.width, black);
        lines.push(line);
        i += 1;
    }
    lines
}

/// The text of the solution, each black cell written as `colored` writes
/// the letter `x` in bold cyan: with the escape sequences of that style
/// where colours are in use, and plain elsewhere.
pub fn render(input: &Input, solution: &Solution) -> (lines: Vec<String>)
    requires
        input.height <= solution.len(),
        forall|i: int| 0 <= i < input.height ==> input.width <= (#[trigger] solution[i]).len(),
    ensures
        exists|black: Seq<char>|
            rendered(lines@, solution@, input.height as int, input.width as int, black),
{
    let black = black_cell();
    render_with(input, solution, black.as_str())
}

} // verus!
