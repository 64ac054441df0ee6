use aoc2023::pipes::{get_map, get_start_pipe, part1, part2, Point};

fn get_test_input() -> Vec<String> {
    vec![
        "L-|F7".to_string(),
        "7S-7|".to_string(),
        "L|7||".to_string(),
        "-L-J|".to_string(),
        "L|-JF".to_string(),
    ]
}

fn get_test_input_part2_1() -> Vec<String> {
    vec![
        "...........".to_string(),
        ".S-------7.".to_string(),
        ".|F-----7|.".to_string(),
        ".||.....||.".to_string(),
        ".||.....||.".to_string(),
        ".|L-7.F-J|.".to_string(),
        ".|..|.|..|.".to_string(),
        ".L--J.L--J.".to_string(),
        "...........".to_string(),
    ]
}

fn get_test_input_part2_2() -> Vec<String> {
    vec![
        "..........".to_string(),
        ".S------7.".to_string(),
        ".|F----7|.".to_string(),
        ".||....||.".to_string(),
        ".||....||.".to_string(),
        ".|L-7F-J|.".to_string(),
        ".|..||..|.".to_string(),
        ".L--JL--J.".to_string(),
        "..........".to_string(),
    ]
}

fn get_test_input_part2_3() -> Vec<String> {
    vec![
        ".F----7F7F7F7F-7....".to_string(),
        ".|F--7||||||||FJ....".to_string(),
        ".||.FJ||||||||L7....".to_string(),
        "FJL7L7LJLJ||LJ.L-7..".to_string(),
        "L--J.L7...LJS7F-7L7.".to_string(),
        "....F-J..F7FJ|L7L7L7".to_string(),
        "....L7.F7||L7|.L7L7|".to_string(),
        ".....|FJLJ|FJ|F7|.LJ".to_string(),
        "....FJL-7.||.||||...".to_string(),
        "....L---J.LJ.LJLJ...".to_string(),
    ]
}

fn get_test_input_part2_4() -> Vec<String> {
    vec![
        "FF7FSF7F7F7F7F7F---7".to_string(),
        "L|LJ||||||||||||F--J".to_string(),
        "FL-7LJLJ||||||LJL-77".to_string(),
        "F--JF--7||LJLJ7F7FJ-".to_string(),
        "L---JF-JLJ.||-FJLJJ7".to_string(),
        "|F|F-JF---7F7-L7L|7|".to_string(),
        "|FFJF7L7F-JF7|JL---7".to_string(),
        "7-L-JL7||F7|L7F-7F7|".to_string(),
        "L.L7LFJ|||||FJL7||LJ".to_string(),
        "L7JLJL-JLJLJL--JLJ.L".to_string(),
    ]
}

#[test]
fn pipes_part1() {
    assert_eq!(part1(get_test_input()), Some(4));
}

#[test]
fn test_get_start() {
    let mut start_point = Point { x: 0, y: 0 };
    let map = get_map(&get_test_input(), &mut start_point).unwrap();
    let start = get_start_pipe(&map, &start_point);
    assert_eq!(start_point.x, 1);
    assert_eq!(start_point.y, 1);
    assert_eq!(start.connections.len(), 2);
}

#[test]
fn test_get_map() {
    let mut start_point = Point { x: 0, y: 0 };
    let map = get_map(&get_test_input(), &mut start_point).unwrap();
    assert_eq!(start_point.x, 1);
    assert_eq!(start_point.y, 1);
    assert_eq!(map.iter().map(|row| row.len()).sum::<usize>(), 25);
}

#[test]
fn pipes_part2() {
    assert_eq!(part2(get_test_input_part2_1()), Some(4));
    assert_eq!(part2(get_test_input_part2_2()), Some(4));
    assert_eq!(part2(get_test_input_part2_3()), Some(8));
    assert_eq!(part2(get_test_input_part2_4()), Some(10));
}

#[test]
fn fields_without_a_loop() {
    assert_eq!(part1(vec!["S..".to_string(), "...".to_string()]), None);
    assert_eq!(part1(vec![]), None);
}
