use aoc2023::oasis::{comb, part1, part2};

fn get_test_input() -> Vec<String> {
    vec![
        "0 3 6 9 12 15".to_string(),
        "1 3 6 10 15 21".to_string(),
        "10 13 16 21 30 45".to_string(),
    ]
}

#[test]
fn oasis_part1() {
    assert_eq!(part1(get_test_input()), Some(114));
}

#[test]
fn oasis_part2() {
    assert_eq!(part2(get_test_input()), Some(2));
}

#[test]
fn test_comb() {
    assert_eq!(comb(5, 2), Some(10));
    assert_eq!(comb(5, 3), Some(10));
    assert_eq!(comb(1, 1), Some(1));
    assert_eq!(comb(0, 0), Some(1));
    assert_eq!(comb(10, 1), Some(10));
    assert_eq!(comb(10, 2), Some(45));
    assert_eq!(comb(10, 3), Some(120));
}

#[test]
fn comb_edges() {
    assert_eq!(comb(3, 4), Some(0));
    assert_eq!(comb(3, -1), Some(1));
    assert_eq!(comb(60, 30), Some(118264581564861424));
    assert_eq!(comb(70, 35), None);
}

#[test]
fn negative_readings_and_bad_lines() {
    assert_eq!(part1(vec!["-1 -2 -3".to_string()]), Some(-4));
    assert_eq!(part2(vec!["-1 -2 -3".to_string()]), Some(0));
    assert_eq!(part1(vec!["1 x 3".to_string()]), None);
}
