use aoc::error::Error;

const EXAMPLE: &str = "R 6 (#70c710)\n\
D 5 (#0dc571)\n\
L 2 (#5713f0)\n\
D 2 (#d2c081)\n\
R 2 (#59c680)\n\
D 2 (#411b91)\n\
L 5 (#8ceee2)\n\
U 2 (#caa173)\n\
L 1 (#1b58a2)\n\
U 2 (#caa171)\n\
R 2 (#7807d2)\n\
U 3 (#a77fa3)\n\
L 2 (#015232)\n\
U 2 (#7a21e3)";

#[test]
fn day18_test_part_1() {
    assert_eq!(aoc::day18::part_1(EXAMPLE), Ok(62));
}

#[test]
fn day18_test_part_2() {
    assert_eq!(aoc::day18::part_2(EXAMPLE), Ok(952408144115));
}

#[test]
fn unit_square_plan() {
    // a 2x2 dig: four cells, all trench
    let plan = "R 1 (#000010)\nD 1 (#000011)\nL 1 (#000012)\nU 1 (#000013)";
    assert_eq!(aoc::day18::part_1(plan), Ok(4));
    assert_eq!(aoc::day18::part_2(plan), Ok(4));
}

#[test]
fn bad_plans_are_rejected() {
    assert_eq!(aoc::day18::part_1("R x (#70c710)"), Err(Error::MalformedInput));
    assert_eq!(aoc::day18::part_1("Q 6 (#70c710)"), Err(Error::MalformedInput));
    assert_eq!(aoc::day18::part_1("R"), Err(Error::MalformedInput));
    assert_eq!(aoc::day18::part_2("R 6 (#70c71x)"), Err(Error::MalformedInput));
    assert_eq!(aoc::day18::part_2("R 6 #70c710"), Err(Error::MalformedInput));
    assert_eq!(
        aoc::day18::part_1("R 99999999 (#70c710)"),
        Err(Error::Overflow)
    );
}
