use aoc::error::Error;

const EXAMPLE: &str = "...#......\n\
.......#..\n\
#.........\n\
..........\n\
......#...\n\
.#........\n\
.........#\n\
..........\n\
.......#..\n\
#...#.....";

#[test]
fn day11_test_part_1() {
    assert_eq!(aoc::day11::part_1(EXAMPLE), Ok(374));
}

#[test]
fn day11_test_part_2() {
    assert_eq!(aoc::day11::part_2(EXAMPLE), Ok(82000210));
}

#[test]
fn lone_galaxy_has_no_pairs() {
    assert_eq!(aoc::day11::part_1("#"), Ok(0));
    assert_eq!(aoc::day11::part_1("..\n.."), Ok(0));
}

#[test]
fn two_galaxies_across_an_empty_column() {
    // one empty column between them doubles once
    assert_eq!(aoc::day11::part_1("#.#"), Ok(3));
    assert_eq!(aoc::day11::part_2("#.#"), Ok(1000001));
}

#[test]
fn ragged_maps_are_rejected() {
    assert_eq!(aoc::day11::part_1("#.\n#"), Err(Error::MalformedInput));
    assert_eq!(aoc::day11::part_1(""), Err(Error::MalformedInput));
}
