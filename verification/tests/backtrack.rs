use nonogram_solver::backtrack::solve;
use nonogram_solver::common::{Cell, Input, Solution};

fn runs(line: &[Cell]) -> Vec<usize> {
    let mut found = Vec::new();
    let mut run = 0;
    for cell in line {
        if *cell == Cell::Black {
            run += 1;
        } else if run > 0 {
            found.push(run);
            run = 0;
        }
    }
    if run > 0 {
        found.push(run);
    }
    found
}

fn assert_solves(input: &Input, solution: &Solution) {
    assert_eq!(solution.len(), input.height);
    for (row, hints) in solution.iter().zip(input.row_hints.iter()) {
        assert_eq!(row.len(), input.width);
        assert_eq!(&runs(row), hints);
    }
    for (j, hints) in input.column_hints.iter().enumerate() {
        let column: Vec<Cell> = solution.iter().map(|row| row[j]).collect();
        assert_eq!(&runs(&column), hints);
    }
}

fn picture(rows: &[&str]) -> Solution {
    rows.iter()
        .map(|row| row.chars().map(|c| if c == 'x' { Cell::Black } else { Cell::White }).collect())
        .collect()
}

fn hints_of(solution: &Solution) -> Input {
    let height = solution.len();
    let width = solution[0].len();
    Input {
        width,
        height,
        row_hints: solution.iter().map(|row| runs(row)).collect(),
        column_hints: (0..width)
            .map(|j| runs(&solution.iter().map(|row| row[j]).collect::<Vec<Cell>>()))
            .collect(),
    }
}

#[test]
fn a_puzzle_without_hints_is_all_white() {
    for (height, width) in [(1, 1), (3, 5), (5, 3), (63, 63)] {
        let input = Input {
            width,
            height,
            row_hints: vec![Vec::new(); height],
            column_hints: vec![Vec::new(); width],
        };
        assert_eq!(solve(&input), Some(vec![vec![Cell::White; width]; height]));
    }
}

#[test]
fn hints_that_disagree_are_impossible() {
    let input = Input {
        width: 1,
        height: 1,
        row_hints: vec![vec![1]],
        column_hints: vec![vec![]],
    };
    assert_eq!(solve(&input), None);
}

#[test]
fn hints_that_do_not_fit_are_impossible() {
    let input = Input {
        width: 3,
        height: 1,
        row_hints: vec![vec![2, 2]],
        column_hints: vec![vec![1], vec![1], vec![1]],
    };
    assert_eq!(solve(&input), None);
}

#[test]
fn a_forced_puzzle_is_solved_by_propagation() {
    let wanted = picture(&["x.x.x", ".xxx.", "xx.xx", ".xxx.", "x.x.x"]);
    let input = hints_of(&wanted);
    assert_eq!(solve(&input), Some(wanted));
}

#[test]
fn a_full_grid() {
    let wanted = picture(&["xxx", "xxx"]);
    assert_eq!(solve(&hints_of(&wanted)), Some(wanted));
}

#[test]
fn an_ambiguous_puzzle_gets_one_of_its_solutions() {
    let input = Input {
        width: 2,
        height: 2,
        row_hints: vec![vec![1], vec![1]],
        column_hints: vec![vec![1], vec![1]],
    };
    let solution = solve(&input).unwrap();
    assert_solves(&input, &solution);
    assert_eq!(solution, picture(&["x.", ".x"]));
}

fn puzzle(rows: &[&[usize]], columns: &[&[usize]]) -> Input {
    Input {
        width: columns.len(),
        height: rows.len(),
        row_hints: rows.iter().map(|hints| hints.to_vec()).collect(),
        column_hints: columns.iter().map(|hints| hints.to_vec()).collect(),
    }
}

#[test]
fn a_refuted_guess_decides_the_cell() {
    let input = puzzle(
        &[&[3], &[1, 2], &[1, 1], &[3]],
        &[&[1, 1], &[2], &[1, 1], &[2], &[2], &[1]],
    );
    let wanted = picture(&["..xxx.", "x..xx.", ".x...x", "xxx..."]);
    assert_eq!(hints_of(&wanted).row_hints, input.row_hints);
    assert_eq!(hints_of(&wanted).column_hints, input.column_hints);
    assert_eq!(solve(&input), Some(wanted));
}

#[test]
fn the_search_starts_again_after_a_refuted_guess() {
    let input = puzzle(
        &[&[3], &[3], &[1], &[3], &[1, 1]],
        &[&[1, 1], &[2, 1], &[2, 1], &[2, 1], &[1]],
    );
    let wanted = picture(&[".xxx.", ".xxx.", "x....", ".xxx.", "x...x"]);
    assert_eq!(solve(&input), Some(wanted));

    let input = puzzle(
        &[&[2], &[1], &[1, 1, 1], &[1, 2], &[3], &[1, 1]],
        &[&[1, 1], &[1], &[1, 2], &[2, 1], &[2], &[2, 1]],
    );
    let wanted = picture(&[".xx...", "...x..", "x..x.x", "..x.xx", "..xxx.", "x....x"]);
    assert_eq!(solve(&input), Some(wanted));
}

#[test]
fn a_stalled_guess_gives_way_to_the_next_cell() {
    let input = puzzle(&[&[1], &[1], &[2], &[1, 1], &[1]], &[&[1, 1], &[1], &[1, 1], &[2]]);
    let solution = solve(&input).unwrap();
    assert_solves(&input, &solution);
    assert_eq!(solution, picture(&[".x..", "x...", "..xx", "x..x", "..x."]));

    let input = puzzle(
        &[&[1], &[1, 1], &[1, 2], &[1], &[1, 1], &[2]],
        &[&[2, 1], &[1, 1], &[1, 2], &[2, 1]],
    );
    let wanted = picture(&[".x..", "x..x", "x.xx", ".x..", "x.x.", "..xx"]);
    assert_eq!(solve(&input), Some(wanted));
}

#[test]
fn a_cell_that_can_have_neither_colour_makes_the_puzzle_impossible() {
    let input = puzzle(&[&[1, 1], &[1], &[2], &[1, 1]], &[&[1], &[1, 1], &[1, 1], &[1, 1]]);
    assert_eq!(solve(&input), None);
    let input = puzzle(&[&[1], &[2], &[2], &[1]], &[&[1], &[1, 1], &[1], &[2]]);
    assert_eq!(solve(&input), None);
}

#[test]
fn the_search_gives_up_where_every_guess_stalls() {
    let wanted = picture(&[".x...x", "xxx..x", ".xxx..", "x...x.", ".x....", "...x.x"]);
    let input = hints_of(&wanted);
    assert_solves(&input, &wanted);
    assert_eq!(solve(&input), None);
}

#[test]
fn a_hint_of_zero_asks_for_no_black_cell() {
    let input = puzzle(&[&[0]], &[&[0]]);
    assert_eq!(solve(&input), Some(vec![vec![Cell::White]]));
    let input = puzzle(&[&[0, 1]], &[&[], &[1]]);
    assert_eq!(solve(&input), Some(vec![vec![Cell::White, Cell::Black]]));
    let input = puzzle(&[&[1, 0]], &[&[], &[1]]);
    assert_eq!(solve(&input), None);
}

#[test]
fn every_solution_found_has_the_runs_that_the_hints_give() {
    let pictures: [&[&str]; 4] = [
        &["x"],
        &["xx.", ".xx", "x.x"],
        &["x.x.x.x", ".x.x.x.", "xxxxxxx", "......."],
        &["..xx..", ".x..x.", "x....x", "x....x", ".x..x.", "..xx.."],
    ];
    for rows in pictures {
        let input = hints_of(&picture(rows));
        if let Some(solution) = solve(&input) {
            assert_solves(&input, &solution);
        }
    }
}
