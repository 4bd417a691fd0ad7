use pipe_maze::calibration::{
    get_calibration_value, get_calibration_value_sum, get_first_digit, get_last_digit,
    get_two_digit_number,
};
use pipe_maze::calibration_words;

#[test]
fn test_calibration_value() {
    assert_eq!(get_calibration_value(&"a1bc2".to_string()), Some(12));
    assert_eq!(get_calibration_value(&"pqr3stu8vwx".to_string()), Some(38));
    assert_eq!(get_calibration_value(&"a1b2c3d4e5f".to_string()), Some(15));
    assert_eq!(get_calibration_value(&"treb7uchet".to_string()), Some(77));
}

#[test]
fn test_two_digit_number() {
    assert_eq!(get_two_digit_number(&"a1bc2".to_string()), "12".to_string());
    assert_eq!(get_two_digit_number(&"pqr3stu8vwx".to_string()), "38".to_string());
    assert_eq!(get_two_digit_number(&"a1b2c3d4e5f".to_string()), "15".to_string());
    assert_eq!(get_two_digit_number(&"treb7uchet".to_string()), "77".to_string());
}

#[test]
fn test_first_digit() {
    assert_eq!(get_first_digit(&"a1bc2".to_string()).to_string(), "1".to_string());
    assert_eq!(get_first_digit(&"pqr3stu8vwx".to_string()).to_string(), "3".to_string());
    assert_eq!(get_first_digit(&"a1b2c3d4e5f".to_string()).to_string(), "1".to_string());
    assert_eq!(get_first_digit(&"treb7uchet".to_string()).to_string(), "7".to_string());
}

#[test]
fn test_last_digit() {
    assert_eq!(get_last_digit(&"a1bc2".to_string()).to_string(), "2".to_string());
    assert_eq!(get_last_digit(&"pqr3stu8vwx".to_string()).to_string(), "8".to_string());
    assert_eq!(get_last_digit(&"a1b2c3d4e5f".to_string()).to_string(), "5".to_string());
    assert_eq!(get_last_digit(&"treb7uchet".to_string()).to_string(), "7".to_string());
}

#[test]
fn main_get_calibration_value() {
    assert_eq!(get_calibration_value("a1bc2"), Some(12));
    assert_eq!(get_calibration_value("pqr3stu8vwx"), Some(38));
    assert_eq!(get_calibration_value("a1b2c3d4e5f"), Some(15));
    assert_eq!(get_calibration_value("treb7uchet"), Some(77));
}

#[test]
fn main_get_two_digit_number() {
    assert_eq!(get_two_digit_number("a1bc2"), "12");
    assert_eq!(get_two_digit_number("pqr3stu8vwx"), "38");
    assert_eq!(get_two_digit_number("a1b2c3d4e5f"), "15");
    assert_eq!(get_two_digit_number("treb7uchet"), "77");
}

#[test]
fn main_get_first_digit() {
    assert_eq!(get_first_digit("a1bc2"), '1');
    assert_eq!(get_first_digit("pqr3stu8vwx"), '3');
    assert_eq!(get_first_digit("a1b2c3d4e5f"), '1');
    assert_eq!(get_first_digit("treb7uchet"), '7');
}

#[test]
fn main_get_last_digit() {
    assert_eq!(get_last_digit("a1bc2"), '2');
    assert_eq!(get_last_digit("pqr3stu8vwx"), '8');
    assert_eq!(get_last_digit("a1b2c3d4e5f"), '5');
    assert_eq!(get_last_digit("treb7uchet"), '7');
}

#[test]
fn line_without_digit() {
    assert_eq!(get_first_digit("abc"), 'a');
    assert_eq!(get_last_digit(""), 'a');
    assert_eq!(get_calibration_value("abc"), None);
}

#[test]
fn calibration_sum_of_example() {
    let lines: Vec<String> = vec![
        "1abc2".to_string(),
        "pqr3stu8vwx".to_string(),
        "a1b2c3d4e5f".to_string(),
        "treb7uchet".to_string(),
    ];
    assert_eq!(get_calibration_value_sum(&lines), Some(142));
    assert_eq!(get_calibration_value_sum(&vec![]), Some(0));
    assert_eq!(get_calibration_value_sum(&vec!["12".to_string(), "none".to_string()]), None);
}

const SPELLED: [&str; 7] = [
    "two1nine",
    "eightwothree",
    "abcone2threexyz",
    "xtwone3four",
    "4nineeightseven2",
    "zoneight234",
    "7pqrstsixteen",
];

#[test]
fn words_get_calibration_value() {
    let expected = [29, 83, 13, 24, 42, 14, 76];
    for (line, value) in SPELLED.iter().zip(expected.iter()) {
        assert_eq!(calibration_words::get_calibration_value(line), *value);
    }
}

#[test]
fn words_get_two_digit_number() {
    let expected = ["29", "83", "13", "24", "42", "14", "76"];
    for (line, value) in SPELLED.iter().zip(expected.iter()) {
        assert_eq!(calibration_words::get_two_digit_number(line), *value);
    }
}

#[test]
fn words_get_first_digit() {
    let expected = ['2', '8', '1', '2', '4', '1', '7'];
    for (line, value) in SPELLED.iter().zip(expected.iter()) {
        assert_eq!(calibration_words::get_first_digit(line), *value);
    }
}

#[test]
fn words_get_last_digit() {
    let expected = ['9', '3', '3', '4', '2', '4', '6'];
    for (line, value) in SPELLED.iter().zip(expected.iter()) {
        assert_eq!(calibration_words::get_last_digit(line), *value);
    }
}

#[test]
fn words_calibration_sum_of_example() {
    let lines: Vec<String> = SPELLED.iter().map(|s| s.to_string()).collect();
    assert_eq!(calibration_words::get_calibration_value_sum(&lines), Some(281));
    assert!(calibration_words::contains_digit("xxoneyy"));
    assert!(!calibration_words::contains_digit("xxonyy"));
    let with_blank = vec!["two1nine".to_string(), "abc".to_string()];
    assert_eq!(calibration_words::get_calibration_value_sum(&with_blank), None);
}
