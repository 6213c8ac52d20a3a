use nonogram_solver::common::{Cell, Input};
use nonogram_solver::render::{render, render_line, render_with};

fn frame(height: usize, width: usize) -> Input {
    Input {
        width,
        height,
        row_hints: vec![Vec::new(); height],
        column_hints: vec![Vec::new(); width],
    }
}

#[test]
fn render_line_writes_each_cell() {
    let cells = [Cell::Black, Cell::White, Cell::White, Cell::Black];
    assert_eq!(render_line(&cells, 4, "x"), "x..x");
    assert_eq!(render_line(&cells, 3, "x"), "x..");
    assert_eq!(render_line(&cells, 0, "x"), "");
    assert_eq!(render_line(&cells, 4, "<b>"), "<b>..<b>");
}

#[test]
fn render_with_writes_each_row() {
    let solution = vec![
        vec![Cell::Black, Cell::White, Cell::Black],
        vec![Cell::White, Cell::Black, Cell::White],
    ];
    assert_eq!(render_with(&frame(2, 3), &solution, "#"), ["#.#", ".#."]);
    assert_eq!(render_with(&frame(1, 2), &solution, "#"), ["#."]);
}

#[test]
fn render_styles_the_black_cells() {
    let solution = vec![
        vec![Cell::Black, Cell::White, Cell::Black],
        vec![Cell::White, Cell::Black, Cell::White],
    ];
    let lines = render(&frame(2, 3), &solution);
    let plain = ["x.x", ".x."];
    let styled = ["\u{1b}[1;36mx\u{1b}[0m.\u{1b}[1;36mx\u{1b}[0m", ".\u{1b}[1;36mx\u{1b}[0m."];
    assert!(lines == plain || lines == styled);
}
