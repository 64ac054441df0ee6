use aoc2023::trebuchet::{part1, part2, replace_all};

#[test]
fn trebuchet_part1() {
    let input: Vec<String> = vec![
        "1abc2".to_string(),
        "pqr3stu8vwx".to_string(),
        "a1b2c3d4e5f".to_string(),
        "treb7uchet".to_string(),
    ];
    assert_eq!(part1(input), Some(142));
}

#[test]
fn trebuchet_part2() {
    let input: Vec<String> = vec![
        "two1nine".to_string(),
        "eightwothree".to_string(),
        "abcone2threexyz".to_string(),
        "xtwone3four".to_string(),
        "4nineeightseven2".to_string(),
        "zoneight234".to_string(),
        "7pqrstsixteen".to_string(),
    ];
    assert_eq!(part2(input), Some(281));
}

#[test]
fn lines_without_digits_count_zero() {
    assert_eq!(part1(vec!["abc".to_string(), "".to_string()]), Some(0));
    assert_eq!(part1(vec!["x7y".to_string()]), Some(77));
}

#[test]
fn replace_all_is_left_to_right() {
    let s: Vec<char> = "aaaa".chars().collect();
    let from: Vec<char> = "aa".chars().collect();
    let to: Vec<char> = "b".chars().collect();
    assert_eq!(replace_all(&s, &from, &to), vec!['b', 'b']);
    let s: Vec<char> = "aaa".chars().collect();
    assert_eq!(replace_all(&s, &from, &to), vec!['b', 'a']);
}
