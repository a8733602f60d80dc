use aoc::error::Error;

const EXAMPLE: &str = "Card 1: 41 48 83 86 17 | 83 86  6 31 17  9 48 53\n\
Card 2: 13 32 20 16 61 | 61 30 68 82 17 32 24 19\n\
Card 3:  1 21 53 59 44 | 69 82 63 72 16 21 14  1\n\
Card 4: 41 92 73 84 69 | 59 84 76 51 58  5 54 83\n\
Card 5: 87 83 26 28 32 | 88 30 70 12 93 22 82 36\n\
Card 6: 31 18 13 56 72 | 74 77 10 23 35 67 36 11";

#[test]
fn day04_test_part_1() {
    assert_eq!(aoc::day04::part_1(EXAMPLE), Ok(13));
}

#[test]
fn duplicate_winning_numbers_count_once() {
    assert_eq!(aoc::day04::part_1("Card 1: 7 7 | 7"), Ok(1));
    assert_eq!(aoc::day04::part_1("Card 1: 7 8 | 8 7"), Ok(2));
}

#[test]
fn matchless_card_scores_nothing() {
    assert_eq!(aoc::day04::part_1("Card 1: 1 2 | 3 4"), Ok(0));
}

#[test]
fn card_without_bar_is_rejected() {
    assert_eq!(aoc::day04::part_1("Card 1: 1 2 3"), Err(Error::MalformedInput));
    assert_eq!(aoc::day04::part_1("1 2 | 3"), Err(Error::MalformedInput));
}
