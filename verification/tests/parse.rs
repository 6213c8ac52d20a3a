use nonogram_solver::backtrack::solve;
use nonogram_solver::common::{Cell, Input};

#[test]
fn from_bytes_reads_a_puzzle() {
    let input = Input::from_bytes(b"2 3\n2 1 1\n1 1\n1 1\n1 1\n1 1\n").unwrap();
    assert_eq!(input.height, 2);
    assert_eq!(input.width, 3);
    assert_eq!(input.row_hints, [vec![1, 1], vec![1]]);
    assert_eq!(input.column_hints, [vec![1], vec![1], vec![1]]);
    assert_eq!(
        solve(&input),
        Some(vec![
            vec![Cell::Black, Cell::White, Cell::Black],
            vec![Cell::White, Cell::Black, Cell::White],
        ])
    );
}

#[test]
fn from_bytes_takes_any_white_space() {
    let input = Input::from_bytes(b"\t1\x0b 2\r\n0\x0c0\xa00\x85").unwrap();
    assert_eq!(input.height, 1);
    assert_eq!(input.width, 2);
    assert_eq!(input.row_hints, [Vec::<usize>::new()]);
    assert_eq!(input.column_hints, [Vec::<usize>::new(), Vec::new()]);
}

#[test]
fn from_bytes_takes_a_plus_sign_and_leading_zeros() {
    let input = Input::from_bytes(b"+1 001 1 +0 1 0007").unwrap();
    assert_eq!(input.height, 1);
    assert_eq!(input.width, 1);
    assert_eq!(input.row_hints, [vec![0]]);
    assert_eq!(input.column_hints, [vec![7]]);
}

#[test]
fn from_bytes_does_not_read_what_follows_the_puzzle() {
    let input = Input::from_bytes(b"1 1 0 0 and more").unwrap();
    assert_eq!(input.height, 1);
    assert_eq!(input.width, 1);
}

#[test]
fn from_bytes_of_an_empty_grid() {
    let input = Input::from_bytes(b"0 0").unwrap();
    assert_eq!(input.height, 0);
    assert_eq!(input.width, 0);
    assert!(input.row_hints.is_empty());
    assert!(input.column_hints.is_empty());
}

#[test]
fn from_bytes_refuses_what_is_no_puzzle() {
    let texts: [&[u8]; 12] = [
        b"",
        b"   \n",
        b"1",
        b"1 1",
        b"1 1 0",
        b"1 1 2 1",
        b"x 1 0 0",
        b"1 -1 0 0",
        b"1 1 0 +",
        b"1 1 0 1.5",
        b"1 1 0 1 99999999999999999999999999",
        b"1 1 0 1 1\xb2",
    ];
    for text in texts {
        assert!(Input::from_bytes(text).is_none());
    }
}

#[test]
fn from_bytes_reads_the_largest_number() {
    let text = format!("1 1 1 {} 0", usize::MAX);
    let input = Input::from_bytes(text.as_bytes()).unwrap();
    assert_eq!(input.row_hints, [vec![usize::MAX]]);
    let text = format!("1 1 1 {}0 0", usize::MAX);
    assert!(Input::from_bytes(text.as_bytes()).is_none());
    let text = format!("1 1 1 {} 0", usize::MAX as u128 + 1);
    assert!(Input::from_bytes(text.as_bytes()).is_none());
}
