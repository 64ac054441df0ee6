use aoc2023::scratchcards::{part1, part2, to_vec_u32};

fn cards() -> Vec<String> {
    vec![
        "Card 1: 41 48 83 86 17 | 83 86  6 31 17  9 48 53".to_string(),
        "Card 2: 13 32 20 16 61 | 61 30 68 82 17 32 24 19".to_string(),
        "Card 3:  1 21 53 59 44 | 69 82 63 72 16 21 14  1".to_string(),
        "Card 4: 41 92 73 84 69 | 59 84 76 51 58  5 54 83".to_string(),
        "Card 5: 87 83 26 28 32 | 88 30 70 12 93 22 82 36".to_string(),
        "Card 6: 31 18 13 56 72 | 74 77 10 23 35 67 36 11".to_string(),
    ]
}

#[test]
fn scratch_part1() {
    assert_eq!(part1(&cards()), Some(13));
}

#[test]
fn test_to_vec_u32() {
    let line: &str = "41 48 83 86 17";
    assert_eq!(to_vec_u32(&line).unwrap(), [41, 48, 83, 86, 17]);
}

#[test]
fn card_points_double() {
    assert_eq!(part1(&vec!["Card 1: 1 2 3 | 1 2 3".to_string()]), Some(4));
    assert_eq!(part1(&vec!["Card 1: 1 2 | 3 4".to_string()]), Some(0));
    assert_eq!(part1(&vec!["Card 1: 1 2 3 4".to_string()]), None);
    assert_eq!(to_vec_u32("1  2"), None);
}

#[test]
fn scratch_part2() {
    assert_eq!(part2(&cards()), Some(30));
    assert_eq!(part2(&vec!["Card 1: 1 | 2".to_string()]), Some(1));
}
