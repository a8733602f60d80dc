use aoc::day06::count_wins;
use aoc::error::Error;

const EXAMPLE: &str = "Time:      7  15   30\nDistance:  9  40  200";

#[test]
fn day06_test_part_1() {
    assert_eq!(aoc::day06::part_1(EXAMPLE), Ok(288));
}

#[test]
fn day06_test_part_2() {
    assert_eq!(aoc::day06::part_2(EXAMPLE), Ok(71503));
}

#[test]
fn win_counts_of_single_races() {
    assert_eq!(count_wins(7, 9), 4);
    assert_eq!(count_wins(30, 200), 9);
    // nobody can beat an unbeatable record
    assert_eq!(count_wins(4, 100), 0);
    assert_eq!(count_wins(0, 0), 0);
}

#[test]
fn race_with_unbeatable_record_zeroes_the_product() {
    let input = "Time: 7 4\nDistance: 9 100";
    assert_eq!(aoc::day06::part_1(input), Ok(0));
}

#[test]
fn races_want_two_lines_of_numerals() {
    assert_eq!(aoc::day06::part_1("Time: 7"), Err(Error::MalformedInput));
    assert_eq!(
        aoc::day06::part_1("Time: 7 x\nDistance: 9 40"),
        Err(Error::MalformedInput)
    );
    // a label-only input describes no race at all and multiplies to one
    assert_eq!(aoc::day06::part_1("Time:\nDistance:"), Ok(1));
}
