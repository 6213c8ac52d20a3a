use nonogram_solver::bitop::{all, minus};
use nonogram_solver::common::{Input, State};
use nonogram_solver::search_line::{deterministic_fill, search_line, search_line_sub};

fn one_row(width: usize, hints: &[usize], white: u64, black: u64) -> (Input, State) {
    let input = Input {
        width,
        height: 1,
        row_hints: vec![hints.to_vec()],
        column_hints: vec![Vec::new(); width],
    };
    let mut state = State::new(1, width);
    state.white[0] = white;
    state.black[0] = black;
    (input, state)
}

#[test]
fn search_line_sub_works() {
    assert_eq!(
        search_line_sub(8, &[2, 3], 0b0000_0000, 0b0000_0000),
        [0b00111011, 0b01110011, 0b11100011, 0b01110110, 0b11100110, 0b11101100]
    );
    assert_eq!(
        search_line_sub(8, &[2, 3], 0b0000_0000, 0b0000_0100),
        [0b01110110, 0b11100110, 0b11101100]
    );
    assert_eq!(
        search_line_sub(8, &[], 0b0000_0000, 0b0000_0000),
        [0b0000_0000]
    );
    // no solution
    assert_eq!(search_line_sub(8, &[3, 3, 3], 0b0000_0000, 0b0000_0000), []);
}

#[test]
fn fillings_keep_clear_of_white() {
    assert_eq!(
        search_line_sub(8, &[2, 3], 0b0000_0001, 0b0000_0000),
        [0b01110110, 0b11100110, 0b11101100]
    );
    assert_eq!(search_line_sub(3, &[3], 0b010, 0), []);
}

#[test]
fn empty_hints_with_a_black_cell_have_no_filling() {
    assert_eq!(search_line_sub(8, &[], 0, 0b0001_0000), []);
    assert_eq!(search_line_sub(8, &[], 0b0001_0000, 0), [0]);
}

#[test]
fn a_hint_longer_than_the_line_has_no_filling() {
    assert_eq!(search_line_sub(4, &[5], 0, 0), []);
    assert_eq!(search_line_sub(4, &[usize::MAX], 0, 0), []);
    assert_eq!(search_line_sub(0, &[1], 0, 0), []);
}

#[test]
fn a_full_line_has_one_filling() {
    assert_eq!(search_line_sub(5, &[5], 0, 0), [0b11111]);
    assert_eq!(search_line_sub(5, &[2, 2], 0, 0), [0b11011]);
    assert_eq!(search_line_sub(63, &[63], 0, 0), [u64::MAX >> 1]);
}

#[test]
fn search_line_folds_the_fillings() {
    let (input, state) = one_row(8, &[2, 3], 0, 0);
    let (and, or) = search_line(&input, &state, 0);
    assert_eq!(and, 0b0010_0000);
    assert_eq!(or, 0b1111_1111);
    assert_eq!(minus(all(8), or), 0b0000_0000);
}

#[test]
fn search_line_with_a_black_cell() {
    let (input, state) = one_row(8, &[2, 3], 0, 0b0000_0100);
    let (and, or) = search_line(&input, &state, 0);
    assert_eq!(and, 0b0110_0100);
    assert_eq!(or, 0b1111_1110);
    assert_eq!(minus(all(8), or), 0b0000_0001);
}

#[test]
fn search_line_without_hints() {
    let (input, state) = one_row(8, &[], 0, 0);
    assert_eq!(search_line(&input, &state, 0), (0, 0));
    let (input, state) = one_row(8, &[], 0, 0b100);
    assert_eq!(search_line(&input, &state, 0), (all(8), 0));
}

#[test]
fn search_line_without_filling() {
    let (input, state) = one_row(8, &[3, 3, 3], 0, 0);
    assert_eq!(search_line(&input, &state, 0), (all(8), 0));
}

fn cross() -> Input {
    Input {
        width: 5,
        height: 5,
        row_hints: vec![vec![1, 1, 1], vec![3], vec![2, 2], vec![3], vec![1, 1, 1]],
        column_hints: vec![vec![1, 1, 1], vec![3], vec![2, 2], vec![3], vec![1, 1, 1]],
    }
}

#[test]
fn propagation_solves_a_forced_puzzle() {
    let input = cross();
    let filled = deterministic_fill(&input, &State::new(5, 5)).unwrap();
    assert_eq!(filled.black, [0b10101, 0b01110, 0b11011, 0b01110, 0b10101]);
    assert_eq!(filled.white, [0b01010, 0b10001, 0b00100, 0b10001, 0b01010]);
    assert!(filled.solved(&input));
}

#[test]
fn propagation_changes_nothing_in_its_own_result() {
    let input = cross();
    let filled = deterministic_fill(&input, &State::new(5, 5)).unwrap();
    assert_eq!(deterministic_fill(&input, &filled), Some(filled.clone()));

    let input = Input {
        width: 2,
        height: 2,
        row_hints: vec![vec![1], vec![1]],
        column_hints: vec![vec![1], vec![1]],
    };
    let stalled = deterministic_fill(&input, &State::new(2, 2)).unwrap();
    assert_eq!(stalled, State::new(2, 2));
    assert_eq!(deterministic_fill(&input, &stalled), Some(stalled.clone()));
}

#[test]
fn propagation_keeps_what_is_known() {
    let input = Input {
        width: 2,
        height: 2,
        row_hints: vec![vec![1], vec![1]],
        column_hints: vec![vec![1], vec![1]],
    };
    let mut state = State::new(2, 2);
    state.black[0] = 0b01;
    let filled = deterministic_fill(&input, &state).unwrap();
    for i in 0..2 {
        assert_eq!(filled.black[i] & state.black[i], state.black[i]);
        assert_eq!(filled.white[i] & state.white[i], state.white[i]);
    }
    assert_eq!(filled.black, [0b01, 0b10]);
    assert_eq!(filled.white, [0b10, 0b01]);
}

#[test]
fn propagation_finds_a_contradiction() {
    let input = Input {
        width: 1,
        height: 1,
        row_hints: vec![vec![1]],
        column_hints: vec![vec![]],
    };
    assert_eq!(deterministic_fill(&input, &State::new(1, 1)), None);

    let input = Input {
        width: 2,
        height: 2,
        row_hints: vec![vec![1], vec![1]],
        column_hints: vec![vec![1], vec![1]],
    };
    let mut state = State::new(2, 2);
    state.black[0] = 0b01;
    state.black[1] = 0b01;
    assert_eq!(deterministic_fill(&input, &state), None);
}

#[test]
fn propagation_stays_below_a_solution() {
    let input = Input {
        width: 4,
        height: 5,
        row_hints: vec![vec![1], vec![1], vec![2], vec![1, 1], vec![1]],
        column_hints: vec![vec![1, 1], vec![1], vec![1, 1], vec![2]],
    };
    let solution: [u64; 5] = [0b0010, 0b0001, 0b1100, 0b1001, 0b0100];
    let filled = deterministic_fill(&input, &State::new(5, 4)).unwrap();
    for i in 0..5 {
        assert_eq!(filled.black[i] & solution[i], filled.black[i]);
        assert_eq!(filled.white[i] & solution[i], 0);
    }
}

#[test]
fn a_zero_hint_takes_a_place_in_the_line() {
    assert_eq!(search_line_sub(1, &[0], 0, 0), [0, 0]);
    assert_eq!(search_line_sub(3, &[1, 0, 1], 0, 0), []);
    assert_eq!(search_line_sub(4, &[1, 0, 1], 0, 0), [0b1001]);
}
