use nonogram_solver::common::{Cell, Input, State};

#[test]
fn new_state_knows_nothing() {
    let state = State::new(3, 5);
    assert_eq!(state.height, 3);
    assert_eq!(state.width, 5);
    assert_eq!(state.white, [0, 0, 0]);
    assert_eq!(state.black, [0, 0, 0]);
    for i in 0..3 {
        for j in 0..5 {
            assert!(state.empty(i, j));
            assert!(!state.white(i, j));
            assert!(!state.black(i, j));
        }
    }
}

#[test]
fn set_records_a_colour() {
    let mut state = State::new(2, 3);
    state.set(0, 1, Cell::Black);
    state.set(1, 2, Cell::White);
    assert_eq!(state.black, [0b010, 0]);
    assert_eq!(state.white, [0, 0b100]);
    assert!(state.black(0, 1));
    assert!(!state.white(0, 1));
    assert!(!state.empty(0, 1));
    assert!(state.white(1, 2));
    assert!(!state.black(1, 2));
    assert!(state.empty(0, 0));
}

#[test]
fn flip_turns_the_colour() {
    let mut state = State::new(2, 3);
    state.set(0, 1, Cell::Black);
    state.flip(0, 1);
    assert_eq!(state.black, [0, 0]);
    assert_eq!(state.white, [0b010, 0]);
    state.flip(0, 1);
    assert_eq!(state.black, [0b010, 0]);
    assert_eq!(state.white, [0, 0]);
}

#[test]
fn transpose_exchanges_rows_and_columns() {
    let mut state = State::new(2, 3);
    state.black[0] = 0b101;
    state.black[1] = 0b010;
    state.white[0] = 0b010;
    let t = state.transpose();
    assert_eq!(t.height, 3);
    assert_eq!(t.width, 2);
    assert_eq!(t.black, [0b01, 0b10, 0b01]);
    assert_eq!(t.white, [0b00, 0b01, 0b00]);
    assert_eq!(t.transpose(), state);
}

#[test]
fn transpose_of_the_puzzle() {
    let input = Input {
        width: 3,
        height: 2,
        row_hints: vec![vec![1, 1], vec![1]],
        column_hints: vec![vec![1], vec![1], vec![1]],
    };
    let t = input.transpose();
    assert_eq!(t.width, 2);
    assert_eq!(t.height, 3);
    assert_eq!(t.row_hints, input.column_hints);
    assert_eq!(t.column_hints, input.row_hints);
    let c = input.clone();
    assert_eq!(c.width, 3);
    assert_eq!(c.row_hints, input.row_hints);
}

#[test]
fn solved_counts_the_black_cells() {
    let input = Input {
        width: 3,
        height: 2,
        row_hints: vec![vec![1, 1], vec![1]],
        column_hints: vec![vec![1], vec![1], vec![1]],
    };
    let mut state = State::new(2, 3);
    assert!(!state.solved(&input));
    state.black[0] = 0b101;
    assert!(!state.solved(&input));
    state.black[1] = 0b010;
    assert!(state.solved(&input));
    state.black[1] = 0b110;
    assert!(!state.solved(&input));

    let input = Input {
        width: 3,
        height: 1,
        row_hints: vec![vec![usize::MAX, 2]],
        column_hints: vec![vec![]; 3],
    };
    assert!(!State::new(1, 3).solved(&input));
}

#[test]
fn to_solution_gives_the_grid() {
    let mut state = State::new(2, 3);
    state.black[0] = 0b101;
    state.white[0] = 0b010;
    state.black[1] = 0b010;
    state.white[1] = 0b101;
    assert_eq!(
        state.to_solution(),
        vec![
            vec![Cell::Black, Cell::White, Cell::Black],
            vec![Cell::White, Cell::Black, Cell::White],
        ]
    );
}
