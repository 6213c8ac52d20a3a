use nonogram_solver::bitop::{all, distinct, minus, subset_bit};

#[test]
fn all_works() {
    assert_eq!(all(0), 0b0);
    assert_eq!(all(4), 0b1111);
}

#[test]
fn subset_works() {
    assert!(subset_bit(0b0110, 0b0110));
    assert!(subset_bit(0b0110, 0b0100));
    assert!(!subset_bit(0b0101, 0b0010));
}

#[test]
fn minus_works() {
    assert_eq!(minus(0b1100, 0b1010), 0b0100);
}

#[test]
fn all_bit_works() {
    assert_eq!(all(0), 0b0);
    assert_eq!(all(4), 0b1111);
}

#[test]
fn subset_bit_works() {
    assert!(subset_bit(0b0110, 0b0110));
    assert!(subset_bit(0b0110, 0b0100));
    assert!(!subset_bit(0b0101, 0b0010));
}

#[test]
fn minus_bit_works() {
    assert_eq!(minus(0b1100, 0b1010), 0b0100);
}

#[test]
fn all_reaches_the_widest_line() {
    assert_eq!(all(1), 0b1);
    assert_eq!(all(63), u64::MAX >> 1);
}

#[test]
fn subset_is_reflexive() {
    for x in [0u64, 1, 0b1010, 0xdead_beef, u64::MAX] {
        assert!(subset_bit(x, x));
    }
}

#[test]
fn minus_leaves_nothing_of_what_was_taken() {
    for (x, y) in [(0u64, 0u64), (0b1100, 0b1010), (u64::MAX, 0xff00), (0x1234, u64::MAX)] {
        assert_eq!(minus(x, y) & y, 0);
        assert_eq!(minus(x, y) | (x & y), x);
    }
}

#[test]
fn distinct_works() {
    assert!(distinct(0b1100, 0b0011));
    assert!(!distinct(0b1100, 0b0100));
    for x in [0u64, 1, 0b1010, u64::MAX] {
        assert!(distinct(x, 0));
    }
}

#[test]
fn set_works() {
    assert!(nonogram_solver::bitop::set(0b0101, 0));
    assert!(!nonogram_solver::bitop::set(0b0101, 1));
    assert!(nonogram_solver::bitop::set(0b0101, 2));
    assert!(nonogram_solver::bitop::set(1 << 63, 63));
    assert!(!nonogram_solver::bitop::set(1 << 62, 63));
}
