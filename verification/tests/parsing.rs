use aoc::error::Error;
use aoc::text::{parse_i64, parse_u64, split_fields, split_lines, split_on};

fn pieces(v: Vec<Vec<u8>>) -> Vec<String> {
    v.into_iter().map(|p| String::from_utf8(p).unwrap()).collect()
}

#[test]
fn lines_ignore_one_trailing_newline() {
    assert_eq!(pieces(split_lines(b"ab\ncd")), ["ab", "cd"]);
    assert_eq!(pieces(split_lines(b"ab\ncd\n")), ["ab", "cd"]);
    assert_eq!(pieces(split_lines(b"ab\n\n")), ["ab", ""]);
    assert_eq!(pieces(split_lines(b"")), Vec::<String>::new());
}

#[test]
fn splitting_keeps_empty_pieces() {
    assert_eq!(pieces(split_on(b"a,b,,c", b",")), ["a", "b", "", "c"]);
    assert_eq!(pieces(split_on(b"a -> b -> c", b" -> ")), ["a", "b", "c"]);
    assert_eq!(pieces(split_on(b"", b",")), [""]);
    assert_eq!(pieces(split_on(b"abc", b",")), ["abc"]);
}

#[test]
fn fields_drop_blank_runs() {
    assert_eq!(pieces(split_fields(b"Time:   7  15   30")), ["Time:", "7", "15", "30"]);
    assert_eq!(pieces(split_fields(b"   ")), Vec::<String>::new());
}

#[test]
fn unsigned_parsing() {
    assert_eq!(parse_u64(b"0"), Ok(0));
    assert_eq!(parse_u64(b"18446744073709551615"), Ok(u64::MAX));
    assert_eq!(parse_u64(b"18446744073709551616"), Err(Error::Overflow));
    assert_eq!(parse_u64(b""), Err(Error::MalformedInput));
    assert_eq!(parse_u64(b"12x"), Err(Error::MalformedInput));
}

#[test]
fn signed_parsing() {
    assert_eq!(parse_i64(b"-42"), Ok(-42));
    assert_eq!(parse_i64(b"9223372036854775807"), Ok(i64::MAX));
    assert_eq!(parse_i64(b"-9223372036854775808"), Ok(i64::MIN));
    assert_eq!(parse_i64(b"-9223372036854775809"), Err(Error::Overflow));
    assert_eq!(parse_i64(b"-"), Err(Error::MalformedInput));
    assert_eq!(parse_i64(b"--4"), Err(Error::MalformedInput));
}
