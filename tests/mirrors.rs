use aoc2023::mirrors::{check_symetry_horizontal, check_symetry_vertically, find_symetry_horizontal, find_symetry_vertical, part1, part2};

fn get_test_input() -> Vec<String> {
    vec![
        "#.##..##.".to_string(),
        "..#.##.#.".to_string(),
        "##......#".to_string(),
        "##......#".to_string(),
        "..#.##.#.".to_string(),
        "..##..##.".to_string(),
        "#.#.##.#.".to_string(),
        "".to_string(),
        "#...##..#".to_string(),
        "#....#..#".to_string(),
        "..##..###".to_string(),
        "#####.##.".to_string(),
        "#####.##.".to_string(),
        "..##..###".to_string(),
        "#....#..#".to_string(),
    ]
}

fn get_test_group1() -> Vec<String> {
    vec![
        "#.##..##.".to_string(),
        "..#.##.#.".to_string(),
        "##......#".to_string(),
        "##......#".to_string(),
        "..#.##.#.".to_string(),
        "..##..##.".to_string(),
        "#.#.##.#.".to_string(),
    ]
}

fn get_test_group2() -> Vec<String> {
    vec![
        "#...##..#".to_string(),
        "#....#..#".to_string(),
        "..##..###".to_string(),
        "#####.##.".to_string(),
        "#####.##.".to_string(),
        "..##..###".to_string(),
        "#....#..#".to_string(),
    ]
}

#[test]
fn main_test_part1() {
    assert_eq!(part1(get_test_input()), Some(405));
}

#[test]
fn main_test_part2() {
    assert_eq!(part2(get_test_input()), Some(400));
}

#[test]
fn test_find_symetry_horizontal() {
    assert_eq!(find_symetry_horizontal(&get_test_group1(), 0), 0);
    assert_eq!(find_symetry_horizontal(&get_test_group2(), 0), 4);
    assert_eq!(find_symetry_horizontal(&get_test_group1(), 1), 3);
    assert_eq!(find_symetry_horizontal(&get_test_group2(), 1), 1);
}

#[test]
fn test_find_symetry_vertical() {
    assert_eq!(find_symetry_vertical(&get_test_group1(), 0), 5);
    assert_eq!(find_symetry_vertical(&get_test_group2(), 0), 0);
    assert_eq!(find_symetry_vertical(&get_test_group1(), 1), 0);
    assert_eq!(find_symetry_vertical(&get_test_group2(), 1), 0);
}

#[test]
fn mismatch_counts() {
    assert_eq!(check_symetry_horizontal(&get_test_group2(), 3), 0);
    assert_eq!(check_symetry_horizontal(&get_test_group1(), 2), 1);
    assert_eq!(check_symetry_vertically(&get_test_group1(), 4), 0);
}

#[test]
fn ragged_or_empty_patterns_are_refused() {
    assert_eq!(part1(vec!["#.".to_string(), "#".to_string()]), None);
    assert_eq!(part1(vec!["#.".to_string(), "".to_string(), "".to_string(), "#.".to_string()]), None);
}
