use almanac::calibration::{calibration_sum, digit_values, first, last, word_and_digit_values};
use almanac::cards::{card_totals, numbers_in, scratch_sum, winners_in, winners_in_p2};
use almanac::cubes::{possible_games_sum, power_sum, round_of, Round};
use almanac::errors::ParseError;
use almanac::parse::{
    bytes_eq, find_byte, find_sub, parse_i32, parse_i64, parse_u32, rfind_sub, split_bytes,
    sub_bytes, trim_spaces,
};
use almanac::schematic::{grid_gear_sum, grid_part_sum, part_matches, sum_line_p1, Line, Part};

fn to_lines(text: &str) -> Vec<Vec<u8>> {
    text.lines().map(|l| l.as_bytes().to_vec()).collect()
}

#[test]
fn test_first_and_last_digit() {
    let map = digit_values();
    assert_eq!(first(&map, b"a1b2c3"), Ok(1));
    assert_eq!(last(&map, b"a1b2c3"), Ok(3));
    assert_eq!(first(&map, b"treb7uchet"), Ok(7));
    assert_eq!(last(&map, b"treb7uchet"), Ok(7));
    assert_eq!(first(&map, b"nothing"), Err(ParseError::NoMatch));
}

#[test]
fn test_first_and_last_words() {
    let map = word_and_digit_values();
    assert_eq!(first(&map, b"two1nine"), Ok(2));
    assert_eq!(last(&map, b"two1nine"), Ok(9));
    assert_eq!(first(&map, b"zoneight234"), Ok(1));
    assert_eq!(last(&map, b"zoneight234"), Ok(4));
}

#[test]
fn test_calibration_sum_digits() {
    let map = digit_values();
    let lines = to_lines("1abc2\npqr3stu8vwx\na1b2c3d4e5f\ntreb7uchet");
    assert_eq!(calibration_sum(&map, &lines), Ok(142));
}

#[test]
fn test_calibration_sum_words() {
    let map = word_and_digit_values();
    let lines = to_lines(
        "two1nine\neightwothree\nabcone2threexyz\nxtwone3four\n4nineeightseven2\nzoneight234\n7pqrstsixteen",
    );
    assert_eq!(calibration_sum(&map, &lines), Ok(281));
}

#[test]
fn test_round_arithmetic() {
    let r = Round::new(2, 3, 4);
    assert_eq!(r.power(), 24);
    let grown = r.add_round(Ok((b"green".as_slice(), 10))).unwrap();
    assert_eq!(grown, Round { red: 2, green: 13, blue: 4 });
    let passed = r.add_round(Err(ParseError::NoSpace));
    assert_eq!(passed, Err(ParseError::NoSpace));
}

#[test]
fn test_round_of_text() {
    let r = round_of(b" 3 blue, 4 red").unwrap();
    assert_eq!(r, Round { red: 4, green: 0, blue: 3 });
    assert_eq!(round_of(b" 3 copper"), Err(ParseError::UnknownColor));
    assert_eq!(round_of(b" blue"), Err(ParseError::NoSpace));
    assert_eq!(round_of(b" x blue"), Err(ParseError::BadInteger));
}

const CUBE_GAMES: &str = "Game 1: 3 blue, 4 red; 1 red, 2 green, 6 blue; 2 green\n\
Game 2: 1 blue, 2 green; 3 green, 4 blue, 1 red; 1 green, 1 blue\n\
Game 3: 8 green, 6 blue, 20 red; 5 blue, 4 red, 13 green; 5 green, 1 red\n\
Game 4: 1 green, 3 red, 6 blue; 3 green, 6 red; 3 green, 15 blue, 14 red\n\
Game 5: 6 red, 1 blue, 3 green; 2 blue, 1 red, 2 green";

#[test]
fn test_possible_games_sum() {
    let lines = to_lines(CUBE_GAMES);
    assert_eq!(possible_games_sum(&lines), Ok(8));
}

#[test]
fn test_power_sum() {
    let lines = to_lines(CUBE_GAMES);
    assert_eq!(power_sum(&lines), Ok(2286));
    let no_colon = to_lines("Game 1 3 blue");
    assert_eq!(power_sum(&no_colon), Err(ParseError::NoColon));
}

const SCHEMATIC: &str = "467..114..\n\
...*......\n\
..35..633.\n\
......#...\n\
617*......\n\
.....+.58.\n\
..592.....\n\
......755.\n\
...$.*....\n\
.664.598..";

#[test]
fn test_schematic_line_scan() {
    let line = Line::from_str(b"467..114..", None).unwrap();
    assert_eq!(
        line.parts,
        vec![
            Part { start: 0, end: 2, value: 467 },
            Part { start: 5, end: 7, value: 114 },
        ]
    );
    assert_eq!(line.symbols, Vec::<i32>::new());
    let with_symbol = Line::from_str(b"617*......", None).unwrap();
    assert_eq!(with_symbol.parts, vec![Part { start: 0, end: 2, value: 617 }]);
    assert_eq!(with_symbol.symbols, vec![3]);
}

#[test]
fn test_schematic_line_scan_trailing_number() {
    // A digit run that reaches the end of the line records the line length
    // as its end column.
    let line = Line::from_str(b"..35..633", None).unwrap();
    assert_eq!(
        line.parts,
        vec![
            Part { start: 2, end: 3, value: 35 },
            Part { start: 6, end: 9, value: 633 },
        ]
    );
}

#[test]
fn test_part_matches_neighbourhood() {
    let p = Part { start: 3, end: 5, value: 35 };
    assert!(part_matches(2, &p));
    assert!(part_matches(3, &p));
    assert!(part_matches(6, &p));
    assert!(!part_matches(1, &p));
    assert!(!part_matches(7, &p));
}

#[test]
fn test_sum_line_symbols_next_door() {
    let top = Line::from_str(b"467..114..", None).unwrap();
    let mid = Line::from_str(b"...*......", None).unwrap();
    assert_eq!(sum_line_p1(Some(&mid), &top, None), Ok(467));
    assert_eq!(sum_line_p1(None, &top, None), Ok(0));
}

#[test]
fn test_grid_part_sum() {
    let lines = to_lines(SCHEMATIC);
    assert_eq!(grid_part_sum(&lines), Ok(4361));
}

#[test]
fn test_grid_gear_sum() {
    let lines = to_lines(SCHEMATIC);
    assert_eq!(grid_gear_sum(&lines), Ok(467835));
}

const CARDS: &str = "Card 1: 41 48 83 86 17 | 83 86  6 31 17  9 48 53\n\
Card 2: 13 32 20 16 61 | 61 30 68 82 17 32 24 19\n\
Card 3:  1 21 53 59 44 | 69 82 63 72 16 21 14  1\n\
Card 4: 41 92 73 84 69 | 59 84 76 51 58  5 54 83\n\
Card 5: 87 83 26 28 32 | 88 30 70 12 93 22 82 36\n\
Card 6: 31 18 13 56 72 | 74 77 10 23 35 67 36 11";

#[test]
fn test_numbers_in() {
    assert_eq!(numbers_in(b" 41 48  83"), Ok(vec![41, 48, 83]));
    assert_eq!(numbers_in(b" 41 x"), Err(ParseError::BadInteger));
    assert_eq!(numbers_in(b""), Ok(Vec::<u32>::new()));
}

#[test]
fn test_card_scores() {
    let winners: Vec<u32> = vec![41, 48, 83, 86, 17];
    let drawn: Vec<u32> = vec![83, 86, 6, 31, 17, 9, 48, 53];
    assert_eq!(winners_in_p2(&winners, &drawn), 4);
    assert_eq!(winners_in(&winners, &drawn), 8);
    let blank: Vec<u32> = vec![10, 20];
    assert_eq!(winners_in(&winners, &blank), 0);
}

#[test]
fn test_scratch_sum() {
    let lines = to_lines(CARDS);
    assert_eq!(scratch_sum(&lines), Ok(13));
    let no_pipe = to_lines("Card 1: 41 48");
    assert_eq!(scratch_sum(&no_pipe), Err(ParseError::NoPipe));
}

#[test]
fn test_card_totals() {
    let lines = to_lines(CARDS);
    assert_eq!(card_totals(&lines), Ok(30));
}

#[test]
fn test_parse_i64_values() {
    assert_eq!(parse_i64(b"0"), Some(0));
    assert_eq!(parse_i64(b"-17"), Some(-17));
    assert_eq!(parse_i64(b"+17"), Some(17));
    assert_eq!(parse_i64(b"9223372036854775807"), Some(i64::MAX));
    assert_eq!(parse_i64(b"-9223372036854775808"), Some(i64::MIN));
    assert_eq!(parse_i64(b"9223372036854775808"), None);
    assert_eq!(parse_i64(b"-9223372036854775809"), None);
    assert_eq!(parse_i64(b""), None);
    assert_eq!(parse_i64(b"-"), None);
    assert_eq!(parse_i64(b"12a"), None);
}

#[test]
fn test_parse_smaller_widths() {
    assert_eq!(parse_i32(b"2147483647"), Some(i32::MAX));
    assert_eq!(parse_i32(b"2147483648"), None);
    assert_eq!(parse_u32(b"4294967295"), Some(u32::MAX));
    assert_eq!(parse_u32(b"4294967296"), None);
    assert_eq!(parse_u32(b"-1"), None);
    assert_eq!(parse_u32(b"-0"), None);
}

#[test]
fn test_byte_helpers() {
    assert!(bytes_eq(b"abc", b"abc"));
    assert!(!bytes_eq(b"abc", b"abd"));
    assert_eq!(find_byte(b"a bc", 32), Some(1));
    assert_eq!(find_byte(b"abc", 32), None);
    assert_eq!(find_sub(b"seed-to-soil", b"-to-"), Some(4));
    assert_eq!(find_sub(b"seed", b"-to-"), None);
    assert_eq!(rfind_sub(b"aXbXc", b"X"), Some(3));
    assert_eq!(rfind_sub(b"abc", b"X"), None);
    assert_eq!(sub_bytes(b"abcdef", 1, 4), b"bcd".to_vec());
    assert_eq!(trim_spaces(b"  hi  "), b"hi".to_vec());
    let fields = split_bytes(b"a,,b", 44);
    assert_eq!(fields, vec![b"a".to_vec(), b"".to_vec(), b"b".to_vec()]);
}
