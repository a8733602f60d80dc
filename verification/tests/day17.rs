use aoc::day17::{get_idx, get_next_pos, solve, Direction, Grid};
use aoc::error::Error;

const EXAMPLE_1: &str = "2413432311323\n\
3215453535623\n\
3255245654254\n\
3446585845452\n\
4546657867536\n\
1438598798454\n\
4457876987766\n\
3637877979653\n\
4654967986887\n\
4564679986453\n\
1224686865563\n\
2546548887735\n\
4322674655533";

const CORRIDOR: &str = "111111111111\n\
999999999991\n\
999999999991\n\
999999999991\n\
999999999991";

#[test]
fn day17_test_part_1() {
    assert_eq!(aoc::day17::part_1(EXAMPLE_1), Ok(102));
}

#[test]
fn day17_test_part_2() {
    assert_eq!(aoc::day17::part_2(EXAMPLE_1), Ok(94));
}

#[test]
fn corridor_forced_runs() {
    let g = Grid::parse(CORRIDOR).unwrap();
    assert_eq!(solve(&g, 4, 10), Ok(71));
}

#[test]
fn trivial_single_cell_grid() {
    let g = Grid::parse("5").unwrap();
    assert_eq!(solve(&g, 1, 3), Ok(0));
    assert_eq!(solve(&g, 4, 10), Ok(0));
    assert_eq!(aoc::day17::part_1("5"), Ok(0));
}

#[test]
fn unreachable_goal_is_reported() {
    // A 1x2 grid cannot be crossed when every run must be at least 4 cells.
    let g = Grid::parse("11").unwrap();
    assert_eq!(solve(&g, 4, 10), Err(Error::NoPathFound));
}

#[test]
fn malformed_grids_are_rejected() {
    assert_eq!(aoc::day17::part_1(""), Err(Error::MalformedInput));
    assert_eq!(aoc::day17::part_1("12\n345"), Err(Error::MalformedInput));
    assert_eq!(aoc::day17::part_1("12\n3x"), Err(Error::MalformedInput));
    assert_eq!(aoc::day17::part_1("\n\n"), Err(Error::MalformedInput));
}

#[test]
fn small_grid_exact_cost() {
    // 2x2 grid: the only two-run routes are east-then-south and
    // south-then-east; the cheaper one costs 1 + 1 = 2.
    let g = Grid::parse("19\n11").unwrap();
    assert_eq!(solve(&g, 1, 3), Ok(2));
}

#[test]
fn raising_a_cell_never_lowers_the_cost() {
    // The same grid with one cell raised can only get costlier.
    let cheap = Grid::parse("11111\n99991\n11111\n19999\n11111").unwrap();
    let dear = Grid::parse("11111\n99991\n11911\n19999\n11111").unwrap();
    let a = solve(&cheap, 1, 3).unwrap();
    let b = solve(&dear, 1, 3).unwrap();
    assert!(a <= b);
}

#[test]
fn solve_is_idempotent() {
    let g = Grid::parse(EXAMPLE_1).unwrap();
    let first = solve(&g, 1, 3);
    let second = solve(&g, 1, 3);
    assert_eq!(first, second);
    assert_eq!(aoc::day17::part_2(EXAMPLE_1), aoc::day17::part_2(EXAMPLE_1));
}

#[test]
fn ties_break_deterministically() {
    // A uniform grid is full of equal-cost frontier states; repeated runs
    // must agree with each other and with the exact minimum: four cells
    // entered at cost 2 each.
    let g = Grid::parse("222\n222\n222").unwrap();
    let first = solve(&g, 1, 3);
    for _ in 0..10 {
        assert_eq!(solve(&g, 1, 3), first);
    }
    assert_eq!(first, Ok(8));
}

#[test]
fn direction_helpers() {
    assert_eq!(Direction::North.rev(), Direction::South);
    assert_eq!(Direction::West.rev(), Direction::East);
    assert_eq!(Direction::North.perp(), [Direction::East, Direction::West]);
    assert_eq!(Direction::East.perp(), [Direction::North, Direction::South]);
}

#[test]
fn position_helpers() {
    assert_eq!(get_idx((2, 3), (5, 7)), 17);
    assert_eq!(get_next_pos((2, 3), (5, 7), Direction::North, 2), Some((0, 3)));
    assert_eq!(get_next_pos((2, 3), (5, 7), Direction::North, 3), None);
    assert_eq!(get_next_pos((2, 3), (5, 7), Direction::South, 2), Some((4, 3)));
    assert_eq!(get_next_pos((2, 3), (5, 7), Direction::South, 3), None);
    assert_eq!(get_next_pos((2, 3), (5, 7), Direction::East, 3), Some((2, 6)));
    assert_eq!(get_next_pos((2, 3), (5, 7), Direction::West, 4), None);
}
