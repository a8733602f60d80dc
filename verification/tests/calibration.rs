use aoc::error::Error;

#[test]
fn day01_test_part_1() {
    let input = "1abc2\npqr3stu8vwx\na1b2c3d4e5f\ntreb7uchet";
    assert_eq!(aoc::day01::part_1(input), Ok(142));
}

#[test]
fn calibration_single_digit_counts_twice() {
    assert_eq!(aoc::day01::part_1("abc7def"), Ok(77));
}

#[test]
fn calibration_line_without_digit_is_rejected() {
    assert_eq!(aoc::day01::part_1("12ab\nnodigits"), Err(Error::MalformedInput));
    assert_eq!(aoc::day01::part_1("nodigits"), Err(Error::MalformedInput));
}

#[test]
fn calibration_empty_input_sums_to_zero() {
    assert_eq!(aoc::day01::part_1(""), Ok(0));
}

#[test]
fn day15_test_part_1() {
    let input = "rn=1,cm-,qp=3,cm=2,qp-,pc=4,ot=9,ab=5,pc-,pc=6,ot=7";
    assert_eq!(aoc::day15::part_1(input), Ok(1320));
}

#[test]
fn rolling_hash_of_known_word() {
    assert_eq!(aoc::day15::hash("HASH"), 52);
    assert_eq!(aoc::day15::hash("rn"), 0);
    assert_eq!(aoc::day15::hash(""), 0);
}

#[test]
fn rolling_hash_sum_of_empty_input() {
    assert_eq!(aoc::day15::part_1(""), Ok(0));
}

#[test]
fn day01_test_part_2() {
    let input = "two1nine\neightwothree\nabcone2threexyz\nxtwone3four\n4nineeightseven2\nzoneight234\n7pqrstsixteen";
    assert_eq!(aoc::day01::part_2(input), Ok(281));
}

#[test]
fn spelled_digits_may_overlap() {
    // the first digit is the "two" that begins inside "eightwo"
    assert_eq!(aoc::day01::part_2("eightwo"), Ok(82));
    assert_eq!(aoc::day01::part_2("twone"), Ok(21));
    assert_eq!(aoc::day01::part_2("zero"), Ok(0));
}

#[test]
fn wordless_lines_are_rejected_in_part_2() {
    assert_eq!(aoc::day01::part_2("onetwo\nxyz"), Err(Error::MalformedInput));
}

#[test]
fn day15_test_part_2() {
    let input = "rn=1,cm-,qp=3,cm=2,qp-,pc=4,ot=9,ab=5,pc-,pc=6,ot=7";
    assert_eq!(aoc::day15::part_2(input), Ok(145));
}

#[test]
fn replacing_a_lens_keeps_its_slot() {
    // box 0 holds rn then cm; replacing rn keeps it in the first slot:
    // 1*1*9 + 1*2*2 = 13
    assert_eq!(aoc::day15::part_2("rn=1,cm=2,rn=9"), Ok(13));
    // removing a missing label changes nothing
    assert_eq!(aoc::day15::part_2("rn=1,zz-"), Ok(1));
    assert_eq!(aoc::day15::part_2("rn"), Err(Error::MalformedInput));
}
