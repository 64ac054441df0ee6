use aoc2023::almanac::{get_almanac, get_corresponding, get_map_entrie, get_seeds, part1, part2, traverse_almanac, MapEntry};

#[test]
fn test_get_seeds() {
    let line: &str = "seeds: 79 14 55 13";
    assert_eq!(get_seeds(line).unwrap()[0], 79);
    assert_eq!(get_seeds(line).unwrap()[1], 14);
    assert_eq!(get_seeds(line).unwrap()[2], 55);
    assert_eq!(get_seeds(line).unwrap()[3], 13);
}

#[test]
fn test_get_map_entrie() {
    let line: &str = "50 98 2";
    assert_eq!(get_map_entrie(line).unwrap().destination, 50);
    assert_eq!(get_map_entrie(line).unwrap().source, 98);
    assert_eq!(get_map_entrie(line).unwrap().range, 2);
}

#[test]
fn test_get_corresponding() {
    let map: Vec<MapEntry> = vec![
        MapEntry { destination: 50, source: 98, range: 2 },
        MapEntry { destination: 52, source: 50, range: 48 },
    ];
    assert_eq!(get_corresponding(&map, 10), 10);
    assert_eq!(get_corresponding(&map, 100), 52);
    assert_eq!(get_corresponding(&map, 60), 62);

    let f2w: Vec<MapEntry> = vec![
        MapEntry { destination: 49, source: 53, range: 8 },
        MapEntry { destination: 0, source: 11, range: 42 },
        MapEntry { destination: 42, source: 0, range: 7 },
        MapEntry { destination: 57, source: 7, range: 4 },
    ];

    assert_eq!(get_corresponding(&f2w, 81), 81);
    assert_eq!(get_corresponding(&f2w, 53), 49);
    assert_eq!(get_corresponding(&f2w, 57), 53);
    assert_eq!(get_corresponding(&f2w, 52), 41);
}

#[test]
fn malformed_almanac_lines() {
    assert!(get_seeds("seeds:79").is_none());
    assert!(get_seeds("seeds: 79 x").is_none());
    assert!(get_map_entrie("50 98").is_none());
}

fn get_test_input() -> Vec<String> {
    vec![
        "seeds: 79 14 55 13".to_string(),
        "".to_string(),
        "seed-to-soil map:".to_string(),
        "50 98 2".to_string(),
        "52 50 48".to_string(),
        "".to_string(),
        "soil-to-fertilizer map:".to_string(),
        "0 15 37".to_string(),
        "37 52 2".to_string(),
        "39 0 15".to_string(),
        "".to_string(),
        "fertilizer-to-water map:".to_string(),
        "49 53 8".to_string(),
        "0 11 42".to_string(),
        "42 0 7".to_string(),
        "57 7 4".to_string(),
        "".to_string(),
        "water-to-light map:".to_string(),
        "88 18 7".to_string(),
        "18 25 70".to_string(),
        "".to_string(),
        "light-to-temperature map:".to_string(),
        "45 77 23".to_string(),
        "81 45 19".to_string(),
        "68 64 13".to_string(),
        "".to_string(),
        "temperature-to-humidity map:".to_string(),
        "0 69 1".to_string(),
        "1 0 69".to_string(),
        "".to_string(),
        "humidity-to-location map:".to_string(),
        "60 56 37".to_string(),
        "56 93 4".to_string(),
    ]
}

#[test]
fn almanac_part1() {
    let input = get_test_input();
    assert_eq!(part1(&input), Some(35));
}

#[test]
fn almanac_part2() {
    let input = get_test_input();
    assert_eq!(part2(&input), Some(46));
}

#[test]
fn test_traverse_almanac() {
    let input = get_test_input();
    let almanac = get_almanac(&input).unwrap();
    assert_eq!(traverse_almanac(&almanac, 79), 82);
    assert_eq!(traverse_almanac(&almanac, 14), 43);
}

#[test]
fn almanac_blocks_must_be_readable() {
    let mut input = get_test_input();
    input[3] = "50 98".to_string();
    assert!(get_almanac(&input).is_none());
    let input = vec!["seeds: 1".to_string(), "".to_string(), "".to_string()];
    assert!(get_almanac(&input).is_none());
}
