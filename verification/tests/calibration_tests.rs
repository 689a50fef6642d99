use puzzles::calibration::first_digit;
use puzzles::calibration::first_star;
use puzzles::calibration::first_token;
use puzzles::calibration::last_digit;
use puzzles::calibration::last_token;
use puzzles::calibration::second_star;

fn bytes(lines: &[&str]) -> Vec<Vec<u8>> {
    lines.iter().map(|l| l.as_bytes().to_vec()).collect()
}

#[test]
fn digit_scan_finds_first_and_last() {
    let line = b"pqr3stu8vwx".to_vec();
    assert_eq!(first_digit(&line), 3);
    assert_eq!(last_digit(&line), 8);
    let lone = b"treb7uchet".to_vec();
    assert_eq!(first_digit(&lone), 7);
    assert_eq!(last_digit(&lone), 7);
    let none = b"trebuchet".to_vec();
    assert_eq!(first_digit(&none), -1);
    assert_eq!(last_digit(&none), -1);
}

#[test]
fn token_scan_reads_spelled_digits() {
    let line = b"two1nine".to_vec();
    assert_eq!(first_token(&line), 2);
    assert_eq!(last_token(&line), 9);
    // overlapping words: the last token is the one starting latest
    let overlap = b"twone".to_vec();
    assert_eq!(first_token(&overlap), 2);
    assert_eq!(last_token(&overlap), 1);
    let none = b"abc".to_vec();
    assert_eq!(first_token(&none), -1);
}

#[test]
fn first_star_sums_digit_values() {
    // the classic sample: 12 + 38 + 15 + 77
    let lines = bytes(&["1abc2", "pqr3stu8vwx", "a1b2c3d4e5f", "treb7uchet"]);
    assert_eq!(first_star(&lines), 142);
}

#[test]
fn second_star_sums_token_values() {
    // the classic sample: 29 + 83 + 13 + 24 + 42 + 14 + 76
    let lines = bytes(&[
        "two1nine",
        "eightwothree",
        "abcone2threexyz",
        "xtwone3four",
        "4nineeightseven2",
        "zoneight234",
        "7pqrstsixteen",
    ]);
    assert_eq!(second_star(&lines), 281);
}
