use aoc::day09::get_differences;
use aoc::error::Error;

const EXAMPLE: &str = "0 3 6 9 12 15\n1 3 6 10 15 21\n10 13 16 21 30 45";

#[test]
fn day09_test_part_1() {
    assert_eq!(aoc::day09::part_1(EXAMPLE), Ok(114));
}

#[test]
fn day09_test_part_2() {
    assert_eq!(aoc::day09::part_2(EXAMPLE), Ok(2));
}

#[test]
fn differences_of_a_row() {
    assert_eq!(get_differences(&[0, 3, 6, 9]).unwrap(), vec![3, 3, 3]);
    assert_eq!(get_differences(&[10, 3, -6]).unwrap(), vec![-7, -9]);
    assert_eq!(
        get_differences(&[i64::MIN, i64::MAX]),
        Err(Error::Overflow)
    );
}

#[test]
fn negative_histories_extrapolate() {
    assert_eq!(aoc::day09::part_1("-3 -6 -9"), Ok(-12));
    assert_eq!(aoc::day09::part_2("-3 -6 -9"), Ok(0));
}

#[test]
fn short_histories_are_rejected() {
    assert_eq!(aoc::day09::part_1("5"), Err(Error::MalformedInput));
    assert_eq!(aoc::day09::part_1("1 2\n\n3 4"), Err(Error::MalformedInput));
    assert_eq!(aoc::day09::part_1("1 b"), Err(Error::MalformedInput));
}
