use aoc2023::network::{gcd, get_direction, get_directions, lcm, lookup, part1, part2};

fn get_part1_test_input1() -> Vec<String> {
    vec![
        "RL".to_string(),
        "".to_string(),
        "AAA = (BBB, CCC)".to_string(),
        "BBB = (DDD, EEE)".to_string(),
        "CCC = (ZZZ, GGG)".to_string(),
        "DDD = (DDD, DDD)".to_string(),
        "EEE = (EEE, EEE)".to_string(),
        "GGG = (GGG, GGG)".to_string(),
        "ZZZ = (ZZZ, ZZZ)".to_string(),
    ]
}

fn get_part2_test_input() -> Vec<String> {
    vec![
        "LR".to_string(),
        "".to_string(),
        "11A = (11B, XXX)".to_string(),
        "11B = (XXX, 11Z)".to_string(),
        "11Z = (11B, XXX)".to_string(),
        "22A = (22B, XXX)".to_string(),
        "22B = (22C, 22C)".to_string(),
        "22C = (22Z, 22Z)".to_string(),
        "22Z = (22B, 22B)".to_string(),
        "XXX = (XXX, XXX)".to_string(),
    ]
}

fn get_part1_test_input1_clean() -> Vec<String> {
    let mut input = get_part1_test_input1();
    input.remove(0);
    input.remove(0);
    input
}

fn get_part1_test_input2() -> Vec<String> {
    vec![
        "LLR".to_string(),
        "".to_string(),
        "AAA = (BBB, BBB)".to_string(),
        "BBB = (AAA, ZZZ)".to_string(),
        "ZZZ = (ZZZ, ZZZ)".to_string(),
    ]
}

#[test]
fn network_part1() {
    assert_eq!(part1(get_part1_test_input1()), Some(2));
    assert_eq!(part1(get_part1_test_input2()), Some(6));
}

#[test]
fn network_part2() {
    assert_eq!(part2(get_part2_test_input()), Some(6));
}

#[test]
fn test_get_direction() {
    let line = "AAA = (BBB, CCC)".to_string();
    let direction = get_direction(line).unwrap();
    assert_eq!(direction.key, "AAA");
    assert_eq!(direction.left, "BBB");
    assert_eq!(direction.right, "CCC");
}

#[test]
fn test_get_directions() {
    let input = get_part1_test_input1_clean();
    let directions = get_directions(input).unwrap();
    let direction = &directions[lookup(&directions, "AAA").unwrap()];
    assert_eq!(direction.key, "AAA");
    assert_eq!(direction.left, "BBB");
    assert_eq!(direction.right, "CCC");
}

#[test]
fn walks_that_never_arrive() {
    let input = vec!["L".to_string(), "".to_string(), "AAA = (AAA, AAA)".to_string(), "ZZZ = (ZZZ, ZZZ)".to_string()];
    assert_eq!(part1(input), None);
    assert!(get_direction("AAA (BBB, CCC)".to_string()).is_none());
}

#[test]
fn gcd_and_lcm() {
    assert_eq!(gcd(12, 18), 6);
    assert_eq!(gcd(7, 7), 7);
    assert_eq!(gcd(0, 5), 5);
    assert_eq!(lcm(vec![4, 6, 10]), Some(60));
    assert_eq!(lcm(vec![]), None);
}
