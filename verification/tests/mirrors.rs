use aoc::error::Error;

const EXAMPLE: &str = "#.##..##.\n\
..#.##.#.\n\
##......#\n\
##......#\n\
..#.##.#.\n\
..##..##.\n\
#.#.##.#.\n\
\n\
#...##..#\n\
#....#..#\n\
..##..###\n\
#####.##.\n\
#####.##.\n\
..##..###\n\
#....#..#";

#[test]
fn day13_test_part_1() {
    assert_eq!(aoc::day13::part_1(EXAMPLE), Ok(405));
}

#[test]
fn day13_test_part_2() {
    assert_eq!(aoc::day13::part_2(EXAMPLE), Ok(400));
}

#[test]
fn single_mirrored_pair_of_rows() {
    assert_eq!(aoc::day13::part_1("#.#\n#.#"), Ok(100));
    // the same block smudged at one cell
    assert_eq!(aoc::day13::part_2("#.#\n###"), Ok(100));
}

#[test]
fn pattern_without_mirror_is_rejected() {
    assert_eq!(aoc::day13::part_1("#.\n.#"), Err(Error::MalformedInput));
}

#[test]
fn ragged_pattern_is_rejected() {
    assert_eq!(aoc::day13::part_1("##\n#"), Err(Error::MalformedInput));
}

#[test]
fn empty_input_scores_zero() {
    assert_eq!(aoc::day13::part_1(""), Ok(0));
}

#[test]
fn find_pattern_reports_the_smallest_mirror_row() {
    let block: Vec<Vec<u8>> = vec![b"##".to_vec(), b"##".to_vec(), b"##".to_vec()];
    assert_eq!(aoc::day13::find_pattern(&block, false, 0), Some(1));
    assert_eq!(aoc::day13::find_pattern(&block, true, 0), Some(1));
    assert_eq!(aoc::day13::find_pattern(&block, false, 1), None);
}
