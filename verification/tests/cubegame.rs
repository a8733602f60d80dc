use aoc::error::Error;

const EXAMPLE: &str = "Game 1: 3 blue, 4 red; 1 red, 2 green, 6 blue; 2 green\n\
Game 2: 1 blue, 2 green; 3 green, 4 blue, 1 red; 1 green, 1 blue\n\
Game 3: 8 green, 6 blue, 20 red; 5 blue, 4 red, 13 green; 5 green, 1 red\n\
Game 4: 1 green, 3 red, 6 blue; 3 green, 6 red; 3 green, 15 blue, 14 red\n\
Game 5: 6 red, 1 blue, 3 green; 2 blue, 1 red, 2 green";

#[test]
fn day02_test_part_1() {
    assert_eq!(aoc::day02::part_1(EXAMPLE), Ok(8));
}

#[test]
fn day02_test_part_2() {
    assert_eq!(aoc::day02::part_2(EXAMPLE), Ok(2286));
}

#[test]
fn game_with_unknown_colour_is_rejected() {
    assert_eq!(
        aoc::day02::part_1("Game 1: 3 mauve"),
        Err(Error::MalformedInput)
    );
    assert_eq!(
        aoc::day02::part_1("Game 1: 3  blue"),
        Err(Error::MalformedInput)
    );
}

#[test]
fn game_without_header_is_rejected_only_where_the_id_matters() {
    // the playable-games sum needs the id and rejects a headerless line
    assert_eq!(aoc::day02::part_1("3 blue"), Err(Error::MalformedInput));
    // the power sum never reads the id
    assert_eq!(aoc::day02::part_2("3 blue"), Ok(0));
}

#[test]
fn powers_multiply_the_three_maxima() {
    assert_eq!(
        aoc::day02::part_2("Game 1: 2 red, 3 green; 4 blue, 1 green"),
        Ok(24)
    );
}
