use aoc2023::cubes::{get_cube, get_game, get_game_number, get_min_set, get_set, is_valid, part1, part2, power};

fn games() -> Vec<String> {
    vec![
        "Game 1: 3 blue, 4 red; 1 red, 2 green, 6 blue; 2 green".to_string(),
        "Game 2: 1 blue, 2 green; 3 green, 4 blue, 1 red; 1 green, 1 blue".to_string(),
        "Game 3: 8 green, 6 blue, 20 red; 5 blue, 4 red, 13 green; 5 green, 1 red".to_string(),
        "Game 4: 1 green, 3 red, 6 blue; 3 green, 6 red; 3 green, 15 blue, 14 red".to_string(),
        "Game 5: 6 red, 1 blue, 3 green; 2 blue, 1 red, 2 green".to_string(),
    ]
}

#[test]
fn cubes_part1() {
    assert_eq!(part1(games()), Some(8));
}

#[test]
fn cubes_part2() {
    assert_eq!(part2(games()), Some(2286));
}

#[test]
fn test_cube() {
    let line: &str = " 3 blue";
    let cube = get_cube(line).unwrap();
    assert_eq!(cube.num, 3);
}

#[test]
fn test_game_number() {
    let line: &str = "Game 1: 3 blue, 4 red; 1 red, 2 green, 6 blue; 2 green";
    let game_number = get_game_number(line);
    assert_eq!(game_number, Some(1));
}

#[test]
fn test_set() {
    let line: &str = " 3 blue, 4 red";
    let set = get_set(line).unwrap();
    assert_eq!(set.cubes.len(), 2);
    assert_eq!(set.cubes[0].num, 3);
    assert_eq!(set.cubes[0].color, "blue");
    assert_eq!(set.cubes[1].num, 4);
    assert_eq!(set.cubes[1].color, "red");
}

#[test]
fn test_game() {
    let line: &str = "Game 1: 3 blue, 4 red; 1 red, 2 green, 6 blue; 2 green";
    let game = get_game(line).unwrap();
    assert_eq!(game.game_num, 1);
    assert_eq!(game.game.len(), 3);
    assert_eq!(game.game[0].cubes.len(), 2);
    assert_eq!(game.game[0].cubes[0].num, 3);
    assert_eq!(game.game[0].cubes[0].color, "blue");
}

#[test]
fn test_is_valid() {
    let line: &str = "Game 1: 3 blue, 4 red; 1 red, 2 green, 6 blue; 2 green";
    let game = get_game(line).unwrap();
    assert_eq!(is_valid(&game), true);

    let line: &str = "Game 3: 8 green, 6 blue, 20 red; 5 blue, 4 red, 13 green; 5 green, 1 red";
    let game = get_game(line).unwrap();
    assert_eq!(is_valid(&game), false);
}

#[test]
fn test_min_set() {
    let line: &str = "Game 1: 3 blue, 4 red; 1 red, 2 green, 6 blue; 2 green";
    let game = get_game(line).unwrap();
    let min_set = get_min_set(&game);
    assert_eq!(min_set.cubes.len(), 3);
    assert_eq!(min_set.cubes[0].num, 4);
    assert_eq!(min_set.cubes[0].color, "red");
    assert_eq!(min_set.cubes[1].num, 2);
    assert_eq!(min_set.cubes[1].color, "green");
    assert_eq!(min_set.cubes[2].num, 6);
    assert_eq!(min_set.cubes[2].color, "blue");
}

#[test]
fn test_power() {
    let line: &str = "Game 1: 3 blue, 4 red; 1 red, 2 green, 6 blue; 2 green";
    let game = get_game(line).unwrap();
    let min_set = get_min_set(&game);
    assert_eq!(power(&min_set), Some(48));
}

#[test]
fn malformed_games_are_refused() {
    assert!(get_cube("3 blue").is_none());
    assert!(get_cube(" x blue").is_none());
    assert!(get_game("Game 1 3 blue").is_none());
    assert!(get_game("Game x: 3 blue").is_none());
    assert_eq!(part1(vec!["Game 1: 3 blue".to_string(), "Game 2: 3blue".to_string()]), None);
}

#[test]
fn limits_are_inclusive() {
    let game = get_game("Game 7: 12 red, 13 green, 14 blue").unwrap();
    assert!(is_valid(&game));
    let game = get_game("Game 7: 15 blue").unwrap();
    assert!(!is_valid(&game));
}
