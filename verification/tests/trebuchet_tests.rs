use puzzles::trebuchet::{calculate, decode};

#[test]
fn test_calculate() {
    let lines = vec![String::from("123"), String::from("456"), String::from("789")];

    assert_eq!(calculate(lines), Some(138));
}

#[test]
fn test_calculate_official_example() {
    let lines = vec![
        String::from("1abc2"),
        String::from("pqr3stu8vwx"),
        String::from("a1b2c3d4e5f"),
        String::from("treb7uchet"),
    ];

    assert_eq!(calculate(lines), Some(142));
}

#[test]
fn test_calculate_official_example_part_two() {
    let lines = vec![
        String::from("two1nine"),
        String::from("eightwothree"),
        String::from("abcone2threexyz"),
        String::from("xtwone3four"),
        String::from("4nineeightseven2"),
        String::from("zoneight234"),
        String::from("7pqrstsixteen"),
    ];

    assert_eq!(calculate(lines), Some(281));
}

#[test]
fn test_decode() {
    assert_eq!(decode("one"), 11);
    assert_eq!(decode("two"), 22);
    assert_eq!(decode("three"), 33);
    assert_eq!(decode("four"), 44);
    assert_eq!(decode("five"), 55);
    assert_eq!(decode("six"), 66);
    assert_eq!(decode("seven"), 77);
    assert_eq!(decode("eight"), 88);
    assert_eq!(decode("nine"), 99);
    assert_eq!(decode("123"), 13);
    assert_eq!(decode("456"), 46);
    assert_eq!(decode("789"), 79);
    assert_eq!(decode("1abc2"), 12);
    assert_eq!(decode("pqr3stu8vwx"), 38);
    assert_eq!(decode("a1b2c3d4e5f"), 15);
    assert_eq!(decode("treb7uchet"), 77);
    assert_eq!(decode("two1nine"), 29);
    assert_eq!(decode("eightwothree"), 83);
    assert_eq!(decode("abcone2threexyz"), 13);
    assert_eq!(decode("xtwone3four"), 24);
    assert_eq!(decode("4nineeightseven2"), 42);
    assert_eq!(decode("zoneight234"), 14);
    assert_eq!(decode("7pqrstsixteen"), 76);
    assert_eq!(decode("eightwo"), 82);
}

#[test]
fn test_calculate_empty() {
    assert_eq!(calculate(vec![]), None);
}
