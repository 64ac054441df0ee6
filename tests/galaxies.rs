use aoc2023::galaxies::{expand_universe, fast_manhattan_distance_sum, get_expanding_cols, get_expanding_rows, get_galaxies, manhattan_distance_sum, part1, part2, Point};

fn get_test_input() -> Vec<String> {
    vec![
        ".......#..".to_string(),
        "#.........".to_string(),
        "......#...".to_string(),
        "...#......".to_string(),
        ".#........".to_string(),
        "..........".to_string(),
        ".........#".to_string(),
        "..........".to_string(),
        ".......#..".to_string(),
        "#...#.....".to_string(),
    ]
}

#[test]
fn test_get_expanding_rows() {
    let rows = get_expanding_rows(&get_test_input());
    assert_eq!(rows, vec![5, 7]);
}

#[test]
fn test_get_expanding_cols() {
    let cols = get_expanding_cols(&get_test_input());
    assert_eq!(cols.len(), 3);
    assert_eq!(cols[0], 2);
    assert_eq!(cols[1], 5);
    assert_eq!(cols[2], 8);
}

#[test]
fn image_without_galaxies_expands_everywhere() {
    let img = vec!["...".to_string(), "...".to_string()];
    assert_eq!(get_expanding_rows(&img), vec![0, 1]);
    assert_eq!(get_expanding_cols(&img), vec![0, 1, 2]);
}

fn puzzle_example() -> Vec<String> {
    vec![
        "...#......".to_string(),
        ".......#..".to_string(),
        "#.........".to_string(),
        "..........".to_string(),
        "......#...".to_string(),
        ".#........".to_string(),
        ".........#".to_string(),
        "..........".to_string(),
        ".......#..".to_string(),
        "#...#.....".to_string(),
    ]
}

#[test]
fn galaxies_part1() {
    assert_eq!(part1(puzzle_example()), Some(374));
    assert_eq!(part1(get_test_input()), Some(378));
}

#[test]
fn galaxies_part2() {
    assert_eq!(part2(puzzle_example()), Some(82000210));
    assert_eq!(part2(get_test_input()), Some(84000210));
}

#[test]
fn galaxies_and_expansion() {
    let mut galaxies = get_galaxies(&puzzle_example()).unwrap();
    assert_eq!(galaxies.len(), 9);
    assert_eq!(galaxies[0], Point { x: 3, y: 0 });
    assert_eq!(galaxies[1], Point { x: 7, y: 1 });
    assert_eq!(galaxies[2], Point { x: 0, y: 2 });
    assert_eq!(galaxies[3], Point { x: 6, y: 4 });
    let cols = get_expanding_cols(&puzzle_example());
    let rows = get_expanding_rows(&puzzle_example());
    assert!(expand_universe(&mut galaxies, &cols, &rows, 2));
    assert_eq!(galaxies[0], Point { x: 4, y: 0 });
    assert_eq!(galaxies[1], Point { x: 9, y: 1 });
    assert_eq!(galaxies[2], Point { x: 0, y: 2 });
    assert_eq!(galaxies[3], Point { x: 8, y: 5 });
    assert_eq!(manhattan_distance_sum(&galaxies), Some(374));
    assert_eq!(fast_manhattan_distance_sum(&galaxies), Some(374));
}

#[test]
fn sweep_sum_matches_pairwise_sum() {
    let points = vec![Point { x: 5, y: -2 }, Point { x: -3, y: 7 }, Point { x: 0, y: 0 }, Point { x: 5, y: 1 }];
    assert_eq!(fast_manhattan_distance_sum(&points), manhattan_distance_sum(&points));
    assert_eq!(fast_manhattan_distance_sum(&vec![]), Some(0));
}

#[test]
fn ragged_image_is_refused() {
    assert_eq!(part1(vec!["#..".to_string(), "#".to_string()]), None);
}
