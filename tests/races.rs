use aoc2023::races::{calc_winning, part1, part2};

fn get_part1_test_input() -> Vec<String> {
    vec![
        "Time:      7  15   30".to_string(),
        "Distance:  9  40  200".to_string(),
    ]
}

#[test]
fn races_part1() {
    assert_eq!(part1(get_part1_test_input()), Some(352));
}

#[test]
fn test_calc_winning() {
    assert_eq!(calc_winning(7, 9), Some(4));
    assert_eq!(calc_winning(15, 40), Some(8));
    assert_eq!(calc_winning(30, 200), Some(11));
}

#[test]
fn races_part2() {
    assert_eq!(part2(get_part1_test_input()), Some(71503));
}

#[test]
fn race_edges() {
    assert_eq!(calc_winning(0, 0), Some(1));
    assert_eq!(calc_winning(4, 0), Some(5));
    assert_eq!(calc_winning(3, 100), Some(0));
    assert_eq!(part1(vec!["Time: 7".to_string()]), None);
    assert_eq!(part1(vec!["Time: 7".to_string(), "Distance: x".to_string()]), None);
}
